//! Recording point clouds to a file as one JSON array.

use vstd::prelude::*;

verus! {

/// A device that records every point cloud it hears to a file.
#[derive(Debug, Clone, PartialEq, Eq, Hash, Default)]
pub struct RecordingDescriptor {
    pub file_path: String,
}

impl RecordingDescriptor {
    /// A recording is titled by its file.
    pub fn title(&self) -> (r: String)
        ensures
            r@ == self.file_path@,
    {
        self.file_path.clone()
    }
}

/// The texts joined with `sep` between them.
pub open spec fn join_with(parts: Seq<Seq<char>>, sep: Seq<char>) -> Seq<char>
    decreases parts.len(),
{
    if parts.len() == 0 {
        Seq::empty()
    } else if parts.len() == 1 {
        parts[0]
    } else {
        join_with(parts.drop_last(), sep) + sep + parts.last()
    }
}

/// Frames elements into a JSON array as they come: an opening bracket,
/// the elements separated by a comma and a newline, a closing bracket.
pub struct JsonArrayFramer {
    is_first: bool,
    /// The elements framed so far.
    elements: Ghost<Seq<Seq<char>>>,
}

impl JsonArrayFramer {
    pub closed spec fn elements(&self) -> Seq<Seq<char>> {
        self.elements@
    }

    /// Whether no element has been framed yet.
    pub closed spec fn spec_is_first(&self) -> bool {
        self.is_first
    }

    pub open spec fn wf(&self) -> bool {
        self.spec_is_first() <==> self.elements().len() == 0
    }

    /// A framer and the text that opens the array.
    pub fn new() -> (r: (JsonArrayFramer, &'static str))
        ensures
            r.0.wf(),
            r.0.elements().len() == 0,
            r.1@ == "["@,
    {
        (JsonArrayFramer { is_first: true, elements: Ghost(Seq::empty()) }, "[")
    }

    /// The text that writes one more element: the element, after a separator
    /// unless it is the first.
    pub fn element(&mut self, json: &str) -> (r: String)
        requires
            old(self).wf(),
        ensures
            final(self).wf(),
            final(self).elements() == old(self).elements().push(json@),
            join_with(final(self).elements(), ",\n"@) == join_with(old(self).elements(), ",\n"@)
                + r@,
    {
        let ghost es = self.elements@;
        let mut r = String::new();
        if !self.is_first {
            r.append(",\n");
        }
        r.append(json);
        self.is_first = false;
        self.elements = Ghost(es.push(json@));
        proof {
            let n = es.push(json@);
            assert(n.drop_last() =~= es);
            if es.len() == 0 {
                assert(r@ =~= json@);
                assert(Seq::<char>::empty() + r@ =~= r@);
            } else {
                assert(r@ =~= ",\n"@ + json@);
                assert(join_with(es, ",\n"@) + ",\n"@ + json@ =~= join_with(es, ",\n"@) + (",\n"@
                    + json@));
            }
        }
        r
    }

    /// The text that closes the array.
    pub fn close(&self) -> (r: &'static str)
        ensures
            r@ == "]"@,
    {
        "]"
    }
}

} // verus!
