// Cross-checks of the library's wire codec against the rosc crate: what we
// encode, rosc must decode back, and what rosc encodes, we must decode back.

use ntwk_tester::codec::{decode, encode_message, OscArg, Packet};

#[test]
fn rosc_decodes_our_encoding() {
    let bits: Vec<u32> = vec![0.5f32.to_bits(), 0.2f32.to_bits()];
    let buf = encode_message(&b"/test".to_vec(), &bits).unwrap();
    let (rest, packet) = rosc::decoder::decode_udp(&buf).expect("rosc must accept our bytes");
    assert!(rest.is_empty());
    match packet {
        rosc::OscPacket::Message(m) => {
            assert_eq!(m.addr, "/test");
            assert_eq!(
                m.args,
                vec![rosc::OscType::Float(0.5), rosc::OscType::Float(0.2)]
            );
        }
        other => panic!("expected a message, got {:?}", other),
    }
}

#[test]
fn we_decode_rosc_encoding() {
    let packet = rosc::OscPacket::Message(rosc::OscMessage {
        addr: "/test".to_string(),
        args: vec![rosc::OscType::Float(0.5), rosc::OscType::Float(0.2)],
    });
    let buf = rosc::encoder::encode(&packet).unwrap();
    match decode(&buf) {
        Ok(Packet::Message(m)) => {
            assert_eq!(m.addr, b"/test".to_vec());
            assert_eq!(
                m.args,
                vec![
                    OscArg::Float(0.5f32.to_bits()),
                    OscArg::Float(0.2f32.to_bits())
                ]
            );
        }
        other => panic!("expected a message, got {:?}", other),
    }
}

#[test]
fn we_decode_rosc_mixed_argument_types() {
    let packet = rosc::OscPacket::Message(rosc::OscMessage {
        addr: "/mix".to_string(),
        args: vec![
            rosc::OscType::Int(-7),
            rosc::OscType::Float(1.25),
            rosc::OscType::String("hello".to_string()),
            rosc::OscType::Blob(vec![1, 2, 3]),
            rosc::OscType::Long(-1),
            rosc::OscType::Double(2.5),
            rosc::OscType::Bool(true),
            rosc::OscType::Bool(false),
            rosc::OscType::Char('A'),
            rosc::OscType::Time(rosc::OscTime { seconds: 2, fractional: 5 }),
            rosc::OscType::Color(rosc::OscColor { red: 1, green: 2, blue: 3, alpha: 4 }),
            rosc::OscType::Midi(rosc::OscMidiMessage {
                port: 9,
                status: 8,
                data1: 7,
                data2: 6,
            }),
            rosc::OscType::Nil,
            rosc::OscType::Inf,
        ],
    });
    let buf = rosc::encoder::encode(&packet).unwrap();
    match decode(&buf) {
        Ok(Packet::Message(m)) => {
            assert_eq!(m.addr, b"/mix".to_vec());
            assert_eq!(
                m.args,
                vec![
                    OscArg::Int(-7),
                    OscArg::Float(1.25f32.to_bits()),
                    OscArg::Str(b"hello".to_vec()),
                    OscArg::Blob(vec![1, 2, 3]),
                    OscArg::Long(-1),
                    OscArg::Double(2.5f64.to_bits()),
                    OscArg::Bool(true),
                    OscArg::Bool(false),
                    OscArg::Char(65),
                    OscArg::Time((2u64 << 32) | 5),
                    OscArg::Color(0x01020304),
                    OscArg::Midi(0x09080706),
                    OscArg::Nil,
                    OscArg::Inf,
                ]
            );
        }
        other => panic!("expected a message, got {:?}", other),
    }
}

#[test]
fn encodings_agree_with_rosc_for_every_padding_shape() {
    // Path and tag-string padding both cycle with length modulo four; cover
    // all the shapes on both sides.
    let paths: [&[u8]; 4] = [b"/a", b"/ab", b"/abc", b"/abcd"];
    for path in paths {
        for n in 0..6usize {
            let vals: Vec<f32> = (0..n).map(|i| i as f32 * 0.25).collect();
            let bits: Vec<u32> = vals.iter().map(|v| v.to_bits()).collect();
            let ours = encode_message(&path.to_vec(), &bits).unwrap();
            let theirs = rosc::encoder::encode(&rosc::OscPacket::Message(rosc::OscMessage {
                addr: String::from_utf8(path.to_vec()).unwrap(),
                args: vals.iter().map(|v| rosc::OscType::Float(*v)).collect(),
            }))
            .unwrap();
            assert_eq!(ours, theirs, "path {:?} with {} args", path, n);
        }
    }
}

#[test]
fn we_reject_rosc_bundle_as_no_message() {
    let bundle = rosc::OscPacket::Bundle(rosc::OscBundle {
        timetag: rosc::OscTime { seconds: 0, fractional: 1 },
        content: vec![rosc::OscPacket::Message(rosc::OscMessage {
            addr: "/inner".to_string(),
            args: vec![rosc::OscType::Float(3.0)],
        })],
    });
    let buf = rosc::encoder::encode(&bundle).unwrap();
    assert_eq!(decode(&buf), Ok(Packet::Bundle));
}
