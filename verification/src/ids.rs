//! Identities of machines and devices, message tags, and the subjects that
//! messages are published under.

use vstd::prelude::*;
use vstd::relations::{sorted_by, total_ordering};

verus! {

/// A machine, or a device on a machine.
#[derive(Debug, Clone, Copy, PartialEq, Eq, Structural, Hash, PartialOrd, Ord)]
pub enum Id {
    Device(usize, usize),
    Machine(usize),
}

/// A label carried by a message.
#[derive(Debug, Clone, Copy, PartialEq, Eq, Structural, Hash, PartialOrd, Ord)]
pub enum Tag {
    Pointcloud,
    FromId(Id),
}

/// The character of a decimal digit.
pub open spec fn digit_char(d: nat) -> char {
    if d == 0 {
        '0'
    } else if d == 1 {
        '1'
    } else if d == 2 {
        '2'
    } else if d == 3 {
        '3'
    } else if d == 4 {
        '4'
    } else if d == 5 {
        '5'
    } else if d == 6 {
        '6'
    } else if d == 7 {
        '7'
    } else if d == 8 {
        '8'
    } else {
        '9'
    }
}

/// The decimal representation of `n`, without leading zeros.
pub open spec fn decimal(n: nat) -> Seq<char>
    decreases n,
{
    if n < 10 {
        seq![digit_char(n)]
    } else {
        decimal(n / 10) + seq![digit_char(n % 10)]
    }
}

fn digit_str(d: usize) -> (s: &'static str)
    requires
        d < 10,
    ensures
        s@ == seq![digit_char(d as nat)],
{
    proof {
        reveal_strlit("0");
        reveal_strlit("1");
        reveal_strlit("2");
        reveal_strlit("3");
        reveal_strlit("4");
        reveal_strlit("5");
        reveal_strlit("6");
        reveal_strlit("7");
        reveal_strlit("8");
        reveal_strlit("9");
    }
    let s = if d == 0 {
        "0"
    } else if d == 1 {
        "1"
    } else if d == 2 {
        "2"
    } else if d == 3 {
        "3"
    } else if d == 4 {
        "4"
    } else if d == 5 {
        "5"
    } else if d == 6 {
        "6"
    } else if d == 7 {
        "7"
    } else if d == 8 {
        "8"
    } else {
        "9"
    };
    assert(s@ =~= seq![digit_char(d as nat)]);
    s
}

/// Appends the decimal representation of `n` to `out`.
pub(crate) fn push_decimal(out: &mut String, n: usize)
    ensures
        final(out)@ == old(out)@ + decimal(n as nat),
    decreases n,
{
    if n < 10 {
        out.append(digit_str(n));
    } else {
        push_decimal(out, n / 10);
        out.append(digit_str(n % 10));
        assert(final(out)@ =~= old(out)@ + decimal(n as nat));
    }
}

/// How an id is written: `m` for a machine, `m:d` for a device.
pub open spec fn id_text(id: Id) -> Seq<char> {
    match id {
        Id::Machine(m) => decimal(m as nat),
        Id::Device(m, d) => decimal(m as nat) + ":"@ + decimal(d as nat),
    }
}

/// How a tag is written.
pub open spec fn tag_text(t: Tag) -> Seq<char> {
    match t {
        Tag::Pointcloud => "Pointcloud"@,
        Tag::FromId(id) => "FromId("@ + id_text(id) + ")"@,
    }
}

impl Id {
    /// The machine that this id is, or belongs to.
    pub fn to_machine(self) -> (r: Id)
        ensures
            r == match self {
                Id::Machine(m) => Id::Machine(m),
                Id::Device(m, _) => Id::Machine(m),
            },
    {
        match self {
            Id::Machine(m) => Id::Machine(m),
            Id::Device(m, _d) => Id::Machine(m),
        }
    }

    /// The text of the id.
    pub fn to_text(&self) -> (r: String)
        ensures
            r@ == id_text(*self),
    {
        let mut r = String::new();
        match self {
            Id::Machine(m) => push_decimal(&mut r, *m),
            Id::Device(m, d) => {
                push_decimal(&mut r, *m);
                r.append(":");
                push_decimal(&mut r, *d);
            },
        }
        r
    }
}

impl Tag {
    /// The text of the tag.
    pub fn to_text(&self) -> (r: String)
        ensures
            r@ == tag_text(*self),
    {
        match self {
            Tag::Pointcloud => String::from_str("Pointcloud"),
            Tag::FromId(id) => {
                let mut r = String::from_str("FromId(");
                let t = id.to_text();
                r.append(t.as_str());
                r.append(")");
                r
            },
        }
    }
}


/// The order of ids: devices before machines, each by their numbers in turn.
pub open spec fn id_le(a: Id, b: Id) -> bool {
    match (a, b) {
        (Id::Device(m1, d1), Id::Device(m2, d2)) => m1 < m2 || (m1 == m2 && d1 <= d2),
        (Id::Device(_, _), Id::Machine(_)) => true,
        (Id::Machine(_), Id::Device(_, _)) => false,
        (Id::Machine(m1), Id::Machine(m2)) => m1 <= m2,
    }
}

/// The order of tags: `Pointcloud` first, then `FromId` by id.
pub open spec fn tag_le(a: Tag, b: Tag) -> bool {
    match (a, b) {
        (Tag::Pointcloud, _) => true,
        (Tag::FromId(_), Tag::Pointcloud) => false,
        (Tag::FromId(x), Tag::FromId(y)) => id_le(x, y),
    }
}

pub open spec fn tag_leq() -> spec_fn(Tag, Tag) -> bool {
    |a: Tag, b: Tag| tag_le(a, b)
}

/// The tag order is a total order.
pub proof fn lemma_tag_order_total()
    ensures
        total_ordering(tag_leq()),
{
    assert forall|x: Tag, y: Tag| #[trigger] tag_leq()(x, y) && #[trigger] tag_leq()(y, x) implies x == y by {
    }
    assert forall|x: Tag, y: Tag, z: Tag| #[trigger] tag_leq()(x, y) && #[trigger] tag_leq()(y, z) implies tag_leq()(x, z) by {
    }
}

fn id_le_exec(a: &Id, b: &Id) -> (r: bool)
    ensures
        r == id_le(*a, *b),
{
    match (a, b) {
        (Id::Device(m1, d1), Id::Device(m2, d2)) => *m1 < *m2 || (*m1 == *m2 && *d1 <= *d2),
        (Id::Device(_, _), Id::Machine(_)) => true,
        (Id::Machine(_), Id::Device(_, _)) => false,
        (Id::Machine(m1), Id::Machine(m2)) => *m1 <= *m2,
    }
}

fn tag_le_exec(a: &Tag, b: &Tag) -> (r: bool)
    ensures
        r == tag_le(*a, *b),
{
    match (a, b) {
        (Tag::Pointcloud, _) => true,
        (Tag::FromId(_), Tag::Pointcloud) => false,
        (Tag::FromId(x), Tag::FromId(y)) => id_le_exec(x, y),
    }
}

/// The tags in order.
pub fn sort_tags(tags: &Vec<Tag>) -> (r: Vec<Tag>)
    ensures
        r@ == tags@.sort_by(tag_leq()),
{
    proof {
        lemma_tag_order_total();
    }
    let mut out: Vec<Tag> = Vec::new();
    let mut i: usize = 0;
    assert(out@ =~= tags@.subrange(0, 0));
    while i < tags.len()
        invariant
            0 <= i <= tags@.len(),
            total_ordering(tag_leq()),
            sorted_by(out@, tag_leq()),
            out@.to_multiset() == tags@.subrange(0, i as int).to_multiset(),
        decreases tags@.len() - i,
    {
        let t = tags[i];
        let mut j: usize = 0;
        while j < out.len() && tag_le_exec(&out[j], &t)
            invariant
                0 <= j <= out@.len(),
                forall|k: int| 0 <= k < j ==> tag_le(#[trigger] out@[k], t),
            decreases out@.len() - j,
        {
            j += 1;
        }
        let ghost before = out@;
        out.insert(j, t);
        proof {
            broadcast use vstd::seq_lib::group_to_multiset_ensures;
            assert(out@ == before.insert(j as int, t));
            if j < before.len() {
                assert(!tag_le(before[j as int], t));
                assert(tag_leq()(t, before[j as int]));
            }
            assert forall|a: int, b: int| 0 <= a < b < out@.len() implies #[trigger] tag_leq()(out@[a], out@[b]) by {
                if b < j {
                    assert(tag_leq()(before[a], before[b]));
                } else if b == j {
                    assert(tag_le(before[a], t));
                } else if a < j {
                    assert(tag_leq()(before[a], before[j as int]));
                    assert(tag_leq()(before[j as int], before[b - 1]));
                    if b - 1 > j {
                        assert(tag_leq()(before[a], before[b - 1]));
                    }
                } else if a == j {
                    if b - 1 > j {
                        assert(tag_leq()(before[j as int], before[b - 1]));
                    }
                } else {
                    assert(tag_leq()(before[a - 1], before[b - 1]));
                }
            }
            vstd::seq_lib::to_multiset_insert(before, j as int, t);
            assert(tags@.subrange(0, i + 1) =~= tags@.subrange(0, i as int).push(t));
            vstd::seq_lib::to_multiset_build(tags@.subrange(0, i as int), t);
        }
        i += 1;
    }
    proof {
        assert(tags@.subrange(0, tags@.len() as int) =~= tags@);
        tags@.lemma_sort_by_ensures(tag_leq());
        vstd::seq_lib::lemma_sorted_unique(out@, tags@.sort_by(tag_leq()), tag_leq());
    }
    out
}

/// `parts` joined with dots between them.
pub open spec fn join_dots(parts: Seq<Seq<char>>) -> Seq<char>
    decreases parts.len(),
{
    if parts.len() == 0 {
        Seq::empty()
    } else if parts.len() == 1 {
        parts[0]
    } else {
        join_dots(parts.drop_last()) + "."@ + parts.last()
    }
}

/// The subject of a message with these tags: the texts of the tags, in tag
/// order, joined with dots.
pub open spec fn spec_subject(tags: Seq<Tag>) -> Seq<char> {
    join_dots(tags.sort_by(tag_leq()).map_values(|t: Tag| tag_text(t)))
}

/// Whatever order the tags come in, the subject is the same.
pub proof fn lemma_subject_ignores_order(a: Seq<Tag>, b: Seq<Tag>)
    requires
        a.to_multiset() == b.to_multiset(),
    ensures
        spec_subject(a) == spec_subject(b),
{
    lemma_tag_order_total();
    a.lemma_sort_by_ensures(tag_leq());
    b.lemma_sort_by_ensures(tag_leq());
    vstd::seq_lib::lemma_sorted_unique(a.sort_by(tag_leq()), b.sort_by(tag_leq()), tag_leq());
}

/// Turning a list of tags into a subject.
pub trait TagsToSubject {
    spec fn spec_to_subject(&self) -> Seq<char>;

    fn to_subject(self) -> (r: String)
        ensures
            r@ == self.spec_to_subject(),
    ;
}

impl TagsToSubject for Vec<Tag> {
    open spec fn spec_to_subject(&self) -> Seq<char> {
        spec_subject(self@)
    }

    fn to_subject(self) -> (r: String) {
        let sorted = sort_tags(&self);
        let ghost parts = sorted@.map_values(|t: Tag| tag_text(t));
        let mut r = String::new();
        let mut i: usize = 0;
        while i < sorted.len()
            invariant
                0 <= i <= sorted@.len(),
                parts == sorted@.map_values(|t: Tag| tag_text(t)),
                r@ == join_dots(parts.subrange(0, i as int)),
            decreases sorted@.len() - i,
        {
            let text = sorted[i].to_text();
            if i > 0 {
                r.append(".");
            }
            r.append(text.as_str());
            proof {
                let p = parts.subrange(0, i + 1);
                assert(p.drop_last() =~= parts.subrange(0, i as int));
                if i == 0 {
                    assert(r@ =~= p[0]);
                } else {
                    assert(r@ =~= join_dots(p.drop_last()) + "."@ + p.last());
                }
            }
            i += 1;
        }
        assert(parts.subrange(0, sorted@.len() as int) =~= parts);
        r
    }
}

/// The device a message comes from: the id of its first `FromId` tag.
pub open spec fn spec_first_source(tags: Seq<Tag>) -> Option<Id>
    decreases tags.len(),
{
    if tags.len() == 0 {
        None
    } else {
        match tags[0] {
            Tag::FromId(id) => Some(id),
            Tag::Pointcloud => spec_first_source(tags.drop_first()),
        }
    }
}

/// The id of the first `FromId` tag, if any.
pub fn first_source(tags: &Vec<Tag>) -> (r: Option<Id>)
    ensures
        r == spec_first_source(tags@),
{
    let ghost n = tags@.len() as int;
    let mut i: usize = 0;
    assert(tags@.subrange(0, n) =~= tags@);
    while i < tags.len()
        invariant
            0 <= i <= n,
            n == tags@.len(),
            spec_first_source(tags@) == spec_first_source(tags@.subrange(i as int, n)),
        decreases n - i,
    {
        let ghost rest = tags@.subrange(i as int, n);
        assert(rest[0] == tags@[i as int]);
        assert(rest.drop_first() =~= tags@.subrange(i + 1, n));
        if let Tag::FromId(id) = tags[i] {
            return Some(id);
        }
        i += 1;
    }
    assert(tags@.subrange(n, n).len() == 0);
    None
}


#[verifier::external_type_specification]
#[verifier::external_body]
pub struct ExParseIntError(std::num::ParseIntError);

/// `c` is an ASCII decimal digit.
pub open spec fn is_ascii_digit(c: char) -> bool {
    '0' <= c && c <= '9'
}

/// The value of a string of ASCII decimal digits.
pub open spec fn digits_value(s: Seq<char>) -> nat
    decreases s.len(),
{
    if s.len() == 0 {
        0
    } else {
        digits_value(s.drop_last()) * 10 + ((s.last() as nat) - ('0' as nat)) as nat
    }
}

/// What `str::parse::<usize>` accepts: an optional `+`, then at least one
/// ASCII digit and nothing else, of a value that fits in `usize`.
pub open spec fn spec_parse_usize(s: Seq<char>) -> Option<usize> {
    let d = if s.len() > 0 && s[0] == '+' {
        s.drop_first()
    } else {
        s
    };
    if d.len() > 0 && (forall|i: int| 0 <= i < d.len() ==> is_ascii_digit(#[trigger] d[i]))
        && digits_value(d) <= usize::MAX {
        Some(digits_value(d) as usize)
    } else {
        None
    }
}

/// Calls `str::parse::<usize>`. As std documents for unsigned integers, the
/// text parses when it is an optional `+` followed by ASCII digits only and
/// the value fits; then the value is that of the digits. The content of the
/// error is not stated.
#[verifier::external_body]
fn parse_usize(s: &str) -> (r: Result<usize, std::num::ParseIntError>)
    ensures
        match spec_parse_usize(s@) {
            Some(v) => r == Ok::<usize, std::num::ParseIntError>(v),
            None => r is Err,
        },
{
    s.parse::<usize>()
}

/// Calls `Display` of `std::num::ParseIntError`; its text is not stated.
#[verifier::external_body]
fn parse_int_error_text(e: &std::num::ParseIntError) -> String {
    format!("{}", e)
}

proof fn lemma_digit_char_value(d: nat)
    requires
        d < 10,
    ensures
        is_ascii_digit(digit_char(d)),
        (digit_char(d) as nat) - ('0' as nat) == d,
{
}

/// The decimal text of a number is made of digits and has the number as
/// its value.
proof fn lemma_decimal_digits(n: nat)
    ensures
        decimal(n).len() > 0,
        forall|i: int| 0 <= i < decimal(n).len() ==> is_ascii_digit(#[trigger] decimal(n)[i]),
        digits_value(decimal(n)) == n,
    decreases n,
{
    lemma_digit_char_value(n % 10);
    if n >= 10 {
        lemma_decimal_digits(n / 10);
        let d = decimal(n);
        let h = decimal(n / 10);
        assert(d.drop_last() =~= h);
        assert(d.last() == digit_char(n % 10));
        assert forall|i: int| 0 <= i < d.len() implies is_ascii_digit(#[trigger] d[i]) by {
            if i < h.len() {
                assert(d[i] == h[i]);
            }
        }
        assert(n == (n / 10) * 10 + n % 10);
        assert(digits_value(d) == digits_value(h) * 10 + ((d.last() as nat) - ('0' as nat)) as nat);
    } else {
        let d = decimal(n);
        assert(d.drop_last() =~= Seq::<char>::empty());
        assert(digits_value(d.drop_last()) == 0);
        assert(digits_value(d) == digits_value(d.drop_last()) * 10 + ((d.last() as nat) - ('0' as nat)) as nat);
    }
}

/// The text of a machine id reads back as the same id.
pub proof fn lemma_machine_text_parses_back(m: usize)
    ensures
        spec_parse_usize(id_text(Id::Machine(m))) == Some(m),
{
    lemma_decimal_digits(m as nat);
    let s = decimal(m as nat);
    assert(is_ascii_digit(s[0]));
}

impl Id {
    /// Reads a machine id from its decimal text.
    pub fn from_str(s: &str) -> (r: Result<Id, std::num::ParseIntError>)
        ensures
            match spec_parse_usize(s@) {
                Some(v) => r == Ok::<Id, std::num::ParseIntError>(Id::Machine(v)),
                None => r is Err,
            },
    {
        match parse_usize(s) {
            Ok(v) => Ok(Id::Machine(v)),
            Err(e) => Err(e),
        }
    }
}

impl std::str::FromStr for Id {
    type Err = std::num::ParseIntError;

    /// Reads a machine id from its decimal text.
    fn from_str(s: &str) -> (r: Result<Id, std::num::ParseIntError>)
        ensures
            match spec_parse_usize(s@) {
                Some(v) => r == Ok::<Id, std::num::ParseIntError>(Id::Machine(v)),
                None => r is Err,
            },
    {
        Id::from_str(s)
    }
}

/// Why a text is not an id.
#[derive(Debug)]
pub enum IdParseError {
    InvalidFormat,
    ParseIntError(std::num::ParseIntError),
}

impl IdParseError {
    /// The human-readable text of the error; that of a wrapped integer error
    /// follows its prefix.
    pub fn message(&self) -> (r: String)
        ensures
            match self {
                IdParseError::InvalidFormat => r@ == "Invalid format"@,
                IdParseError::ParseIntError(_) => "Parse int error: "@.is_prefix_of(r@),
            },
    {
        match self {
            IdParseError::InvalidFormat => String::from_str("Invalid format"),
            IdParseError::ParseIntError(e) => {
                let mut r = String::from_str("Parse int error: ");
                let t = parse_int_error_text(e);
                r.append(t.as_str());
                assert("Parse int error: "@.is_prefix_of(r@));
                r
            },
        }
    }

    pub fn from_parse_int_error(e: std::num::ParseIntError) -> (r: IdParseError)
        ensures
            r == IdParseError::ParseIntError(e),
    {
        IdParseError::ParseIntError(e)
    }
}

} // verus!
