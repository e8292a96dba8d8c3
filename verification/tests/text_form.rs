use dpcore::protocol::message::{
    AnnotationEditMessage, Body, ChatMessage, ClassicDab, DisconnectMessage,
    DrawDabsClassicMessage, DrawDabsPixelMessage, FillRectMessage, JoinMessage,
    LayerAttributesMessage, LayerCreateMessage, Message, MoveRegionMessage, MovePointerMessage,
    PixelDab, PutTileMessage, UndoMessage,
};
use dpcore::protocol::textform::TextParseError;
use dpcore::protocol::textmessage::TextMessage;

fn roundtrip(m: Message) {
    let text = m.to_string();
    let tm = TextMessage::parse(&text).expect("text form parses");
    let back = Message::from_text(&tm).expect("known message name");
    assert_eq!(back, m, "text form of {:?}: {}", m, text);
}

#[test]
fn join_text_is_a_single_line() {
    let m = Message {
        user_id: 1,
        body: Body::Join(JoinMessage {
            flags: 3,
            name: "XYZ".to_string(),
            avatar: Vec::new(),
        }),
    };
    assert_eq!(m.to_string(), "1 join flags=auth,mod name=XYZ");
}

#[test]
fn values_with_spaces_are_written_as_a_block() {
    let m = Message {
        user_id: 7,
        body: Body::Chat(ChatMessage {
            flags: 0,
            message: "hello world\nsecond line".to_string(),
        }),
    };
    assert_eq!(
        m.to_string(),
        "7 chat {\n\tmessage=hello world\n\tmessage=second line\n}"
    );
    roundtrip(m);
}

#[test]
fn classic_dabs_are_written_in_fixed_point() {
    let m = Message {
        user_id: 1,
        body: Body::DrawDabsClassic(DrawDabsClassicMessage {
            layer: 0x0101,
            x: 5,
            y: -6,
            color: 0xff_ff0000,
            mode: 1,
            dabs: vec![ClassicDab {
                x: -3,
                y: 2,
                size: 384,
                opacity: 255,
                hardness: 128,
            }],
        }),
    };
    assert_eq!(
        m.to_string(),
        "1 classicdabs {\n\tlayer=0x0101\n\tx=1.25\n\ty=-1.5\n\tcolor=#ff0000\n\tmode=1\n\t-0.75 0.5 1.5 255 128\n}"
    );
    roundtrip(m);
}

#[test]
fn text_roundtrip_of_each_kind() {
    let messages = vec![
        Body::Command("{\"cmd\": \"x\"}".to_string()),
        Body::Disconnect(DisconnectMessage {
            reason: 2,
            message: "bye".to_string(),
        }),
        Body::Ping(true),
        Body::Ping(false),
        Body::Leave,
        Body::TrustedUsers(vec![1, 2, 200]),
        Body::SoftReset,
        Body::Interval(1000),
        Body::MovePointer(MovePointerMessage { x: -100, y: 2000 }),
        Body::Marker("a marker".to_string()),
        Body::FeatureAccessLevels(vec![0, 1, 2, 3, 4, 5, 6, 7, 8]),
        Body::DefaultLayer(0x0102),
        Body::Filtered(vec![0, 1, 2, 3, 255]),
        Body::UndoPoint,
        Body::LayerCreate(LayerCreateMessage {
            id: 0x0101,
            source: 0,
            fill: 0x80_ffffff,
            flags: 2,
            name: "Layer 1".to_string(),
        }),
        Body::LayerAttributes(LayerAttributesMessage {
            id: 0x0101,
            sublayer: 3,
            flags: 1,
            opacity: 128,
            blend: 2,
        }),
        Body::LayerOrder(vec![0x0101, 0x0203, 0xffff]),
        Body::FillRect(FillRectMessage {
            layer: 1,
            mode: 1,
            x: 10,
            y: 20,
            w: 30,
            h: 4000000000,
            color: 0xff_123456,
        }),
        Body::PenUp,
        Body::AnnotationEdit(AnnotationEditMessage {
            id: 0x0105,
            bg: 0,
            flags: 4,
            border: 1,
            text: "<b>hi</b>".to_string(),
        }),
        Body::AnnotationDelete(0x0105),
        Body::MoveRegion(MoveRegionMessage {
            layer: 1,
            bx: 0,
            by: 1,
            bw: 2,
            bh: 3,
            x1: -4,
            y1: 5,
            x2: 6,
            y2: -7,
            x3: 8,
            y3: 9,
            x4: i32::MIN,
            y4: i32::MAX,
            mask: vec![1, 2, 3, 4, 5],
        }),
        Body::PutTile(PutTileMessage {
            layer: 2,
            col: 3,
            row: 4,
            repeat: 5,
            sublayer: 6,
            image: vec![0xde, 0xad, 0xbe, 0xef],
        }),
        Body::CanvasBackground(vec![9, 8, 7]),
        Body::DrawDabsPixel(DrawDabsPixelMessage {
            layer: 1,
            x: 100,
            y: -100,
            color: 0xff_000000,
            mode: 0,
            dabs: vec![
                PixelDab {
                    x: -128,
                    y: 127,
                    size: 16,
                    opacity: 200,
                },
                PixelDab {
                    x: 0,
                    y: 0,
                    size: 1,
                    opacity: 0,
                },
            ],
        }),
        Body::DrawDabsPixelSquare(DrawDabsPixelMessage {
            layer: 1,
            x: 0,
            y: 0,
            color: 0x12_345678,
            mode: 1,
            dabs: vec![PixelDab {
                x: 1,
                y: 2,
                size: 3,
                opacity: 4,
            }],
        }),
        Body::Undo(UndoMessage {
            override_user: 3,
            redo: true,
        }),
    ];
    for body in messages {
        roundtrip(Message { user_id: 42, body });
    }
}

#[test]
fn unnamed_flag_bits_are_dropped() {
    let m = Message {
        user_id: 1,
        body: Body::Join(JoinMessage {
            flags: 0x81,
            name: "a".to_string(),
            avatar: Vec::new(),
        }),
    };
    let tm = TextMessage::parse(&m.to_string()).unwrap();
    match Message::from_text(&tm).unwrap().body {
        Body::Join(j) => assert_eq!(j.flags, 1),
        _ => panic!("not a join"),
    }
}

#[test]
fn parse_rejects_malformed_text() {
    assert_eq!("".parse::<TextMessage>().err(), Some(TextParseError));
    assert_eq!("1".parse::<TextMessage>().err(), Some(TextParseError));
    assert_eq!("256 join".parse::<TextMessage>().err(), Some(TextParseError));
    assert_eq!("x join".parse::<TextMessage>().err(), Some(TextParseError));
    assert_eq!("1 join name".parse::<TextMessage>().err(), Some(TextParseError));
    assert_eq!("1 chat {\n\tmessage=x".parse::<TextMessage>().err(), Some(TextParseError));
    assert_eq!("1 join\nname=x".parse::<TextMessage>().err(), Some(TextParseError));
}

#[test]
fn unknown_names_are_not_messages() {
    let tm = TextMessage::parse("1 nosuchmessage a=b").unwrap();
    assert!(Message::from_text(&tm).is_none());
}

#[test]
fn text_message_arguments() {
    let tm = TextMessage::new(3, "x")
        .set("a", "1".to_string())
        .set("b", String::new())
        .set("a", "2".to_string())
        .set_argb32("c", 0x80_102030)
        .set_hex16("d", 0x1f)
        .set_bool("e", true)
        .set_vec_u8("f", &[1, 2, 3])
        .set_bytes("g", b"hello")
        .set_dec("h", -42);
    assert_eq!(tm.to_string(), "3 x a=2 c=#80102030 d=0x001f e=true f=1,2,3 g=aGVsbG8= h=-42");
    assert_eq!(tm.get_str("a"), "2");
    assert_eq!(tm.get_str("b"), "");
    assert_eq!(tm.get_argb32("c"), 0x80_102030);
    assert_eq!(tm.get_u16("d"), 0x1f);
    assert!(tm.get_bool("e"));
    assert_eq!(tm.get_vec_u8("f"), vec![1, 2, 3]);
    assert_eq!(tm.get_bytes("g"), b"hello".to_vec());
    assert_eq!(tm.get_u32("h") as i32, -42);
    assert_eq!(tm.get_u8("h"), 0);
    assert_eq!(tm.get_u8("missing"), 0);
}

#[test]
fn opaque_colors_are_written_without_alpha() {
    let tm = TextMessage::new(1, "x").set_argb32("c", 0xff_abcdef);
    assert_eq!(tm.to_string(), "1 x c=#abcdef");
    assert_eq!(tm.get_argb32("c"), 0xff_abcdef);
}

#[test]
fn repeated_keys_continue_the_value() {
    let tm = TextMessage::parse("1 marker {\n\ttext=one\n\ttext=two\n}").unwrap();
    assert_eq!(tm.get_str("text"), "one\ntwo");
}

#[test]
fn fixed_point_values_saturate() {
    let tm = TextMessage::parse("1 classicdabs {\n\tx=0.5\n\t100 -100 1000 300 1.9\n\t1 2\n}").unwrap();
    let m = Message::from_text(&tm).unwrap();
    match m.body {
        Body::DrawDabsClassic(d) => {
            assert_eq!(d.x, 2);
            assert_eq!(d.dabs.len(), 1);
            assert_eq!(d.dabs[0].x, 127);
            assert_eq!(d.dabs[0].y, -128);
            assert_eq!(d.dabs[0].size, 65535);
            assert_eq!(d.dabs[0].opacity, 255);
            assert_eq!(d.dabs[0].hardness, 1);
        }
        _ => panic!("not classic dabs"),
    }
}
