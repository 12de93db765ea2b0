use mmwave::ids::{first_source, sort_tags, Id, IdParseError, Tag, TagsToSubject};
use std::str::FromStr;

#[test]
fn to_machine_drops_device() {
    assert_eq!(Id::Device(3, 4).to_machine(), Id::Machine(3));
    assert_eq!(Id::Machine(9).to_machine(), Id::Machine(9));
    assert_eq!(Id::Device(3, 4).to_machine().to_machine(), Id::Machine(3));
}

#[test]
fn id_and_tag_texts() {
    assert_eq!(Id::Machine(0).to_text(), "0");
    assert_eq!(Id::Machine(1205).to_text(), "1205");
    assert_eq!(Id::Device(3, 40).to_text(), "3:40");
    assert_eq!(Id::Machine(usize::MAX).to_text(), usize::MAX.to_string());
    assert_eq!(Tag::Pointcloud.to_text(), "Pointcloud");
    assert_eq!(Tag::FromId(Id::Device(1, 2)).to_text(), "FromId(1:2)");
    assert_eq!(Tag::FromId(Id::Machine(7)).to_text(), "FromId(7)");
}

#[test]
fn subject_sorts_and_joins_tags() {
    let tags = vec![Tag::FromId(Id::Device(1, 2)), Tag::Pointcloud];
    assert_eq!(tags.to_subject(), "Pointcloud.FromId(1:2)");
    assert_eq!(Vec::<Tag>::new().to_subject(), "");
    assert_eq!(vec![Tag::Pointcloud].to_subject(), "Pointcloud");
}

#[test]
fn subject_ignores_tag_order() {
    let a = vec![Tag::FromId(Id::Machine(2)), Tag::Pointcloud, Tag::FromId(Id::Device(5, 1))];
    let b = vec![Tag::FromId(Id::Device(5, 1)), Tag::FromId(Id::Machine(2)), Tag::Pointcloud];
    assert_eq!(a.clone().to_subject(), b.to_subject());
    assert_eq!(a.to_subject(), "Pointcloud.FromId(5:1).FromId(2)");
}

#[test]
fn tag_order_is_the_derived_order() {
    let tags = vec![
        Tag::FromId(Id::Machine(3)),
        Tag::FromId(Id::Device(2, 9)),
        Tag::Pointcloud,
        Tag::FromId(Id::Device(2, 1)),
        Tag::FromId(Id::Machine(1)),
        Tag::FromId(Id::Device(0, 5)),
        Tag::Pointcloud,
    ];
    let mut expected = tags.clone();
    expected.sort();
    assert_eq!(sort_tags(&tags), expected);
}

#[test]
fn ids_parse_from_decimal_text() {
    assert_eq!(Id::from_str("42").unwrap(), Id::Machine(42));
    assert_eq!(Id::from_str("+7").unwrap(), Id::Machine(7));
    assert_eq!(Id::from_str("007").unwrap(), Id::Machine(7));
    assert_eq!("5".parse::<Id>().unwrap(), Id::Machine(5));
    assert!(Id::from_str("").is_err());
    assert!(Id::from_str("+").is_err());
    assert!(Id::from_str("-1").is_err());
    assert!(Id::from_str("1:2").is_err());
    assert!(Id::from_str(" 1").is_err());
    assert!(Id::from_str("99999999999999999999999999").is_err());
}

#[test]
fn id_parse_error_messages() {
    assert_eq!(IdParseError::InvalidFormat.message(), "Invalid format");
    let e = Id::from_str("x").unwrap_err();
    let m = IdParseError::from_parse_int_error(e).message();
    assert!(m.starts_with("Parse int error: "));
}

#[test]
fn first_source_is_the_first_from_id_tag() {
    let tags = vec![Tag::Pointcloud, Tag::FromId(Id::Device(2, 7)), Tag::FromId(Id::Machine(1))];
    assert_eq!(first_source(&tags), Some(Id::Device(2, 7)));
    assert_eq!(first_source(&vec![Tag::Pointcloud]), None);
    assert_eq!(first_source(&Vec::new()), None);
}

#[test]
fn machine_text_parses_back() {
    for n in [0usize, 7, 10, 1205, usize::MAX] {
        assert_eq!(Id::from_str(&Id::Machine(n).to_text()).unwrap(), Id::Machine(n));
    }
}
