use buffered_reader::body_length::BodyLength;
use buffered_reader::ctb::{CTBCommon, CTBNew, CTBOld, Error, PacketLengthType, CTB};
use buffered_reader::unknown::Unknown;

#[test]
fn packet_length_type_round_trip() {
    for (u, l) in [
        (0u8, PacketLengthType::OneOctet),
        (1, PacketLengthType::TwoOctets),
        (2, PacketLengthType::FourOctets),
        (3, PacketLengthType::Indeterminate),
    ] {
        assert_eq!(PacketLengthType::try_from(u), Ok(l));
        assert_eq!(u8::from(l), u);
    }
    assert_eq!(PacketLengthType::try_from(4), Err(Error::InvalidPacketLength(4)));
}

#[test]
fn old_ctb_picks_shortest_length() {
    let one = CTBOld::new(2, BodyLength::Full(0xff)).unwrap();
    assert_eq!(one.length_type, PacketLengthType::OneOctet);
    assert_eq!(one.common.tag, 2);
    assert_eq!(CTBOld::new(2, BodyLength::Full(0x100)).unwrap().length_type, PacketLengthType::TwoOctets);
    assert_eq!(CTBOld::new(2, BodyLength::Full(0xffff)).unwrap().length_type, PacketLengthType::TwoOctets);
    assert_eq!(CTBOld::new(2, BodyLength::Full(0x10000)).unwrap().length_type, PacketLengthType::FourOctets);
    assert_eq!(CTBOld::new(15, BodyLength::Indeterminate).unwrap().length_type, PacketLengthType::Indeterminate);
    assert_eq!(CTBOld::new(16, BodyLength::Full(1)), Err(Error::TagOutOfRange(16)));
    assert_eq!(CTBOld::new(1, BodyLength::Partial(8)), Err(Error::PartialBodyLength));
}

#[test]
fn new_ctb_keeps_tag() {
    assert_eq!(CTBNew::new(20).common.tag, 20);
    let c = CTB::new(11);
    assert_eq!(*c.common(), CTBCommon { tag: 11 });
    let old = CTB::Old(CTBOld::new(3, BodyLength::Full(5)).unwrap());
    assert_eq!(old.common().tag, 3);
}

#[test]
fn unknown_packet_body() {
    let mut p = Unknown::new(60);
    assert_eq!(p.tag(), 60);
    assert_eq!(p.body(), None);
    p.set_body(vec![1, 2, 3]);
    assert_eq!(p.body(), Some(&[1u8, 2, 3][..]));
    p.set_tag(61);
    assert_eq!(p.tag(), 61);
    assert_eq!(p.body(), Some(&[1u8, 2, 3][..]));
}
