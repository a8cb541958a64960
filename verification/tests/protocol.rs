//! Envelopes, frames, MessagePack and the error shape.

use hexput::budget::Dimension;
use hexput::budget::Setting;
use hexput::budget::Settings;
use hexput::diagnostics::Category;
use hexput::diagnostics::Code;
use hexput::diagnostics::Diagnostic;
use hexput::diagnostics::RenderOptions;
use hexput::diagnostics::Span;
use hexput::diagnostics::render_diagnostic;
use hexput::envelope::CorrelationId;
use hexput::envelope::Envelope;
use hexput::envelope::MessageType;
use hexput::ids::ClientId;
use hexput::message_pack::Unreadable;
use hexput::message_pack::pack;
use hexput::message_pack::show;
use hexput::message_pack::unpack;
use hexput::port::codec::classify;
use hexput::port::codec::decode;
use hexput::port::codec::encode;
use hexput::port::error::ErrorBody;
use hexput::port::error::ProtocolCode;
use hexput::port::error::ProtocolError;
use hexput::port::error::error_response;
use hexput::port::frame::FrameDecoder;
use hexput::port::frame::MAX_FRAME_LEN;
use hexput::port::frame::encode_frame;
use hexput::port::settings::decode_settings;
use hexput::wire::Wire;

fn map(pairs: Vec<(&str, Wire)>) -> Wire {
    Wire::Pairs(pairs.into_iter().map(|(key, value)| (Wire::text(key), value)).collect())
}

fn shape(value: &Wire) -> String {
    format!("{value:?}")
}

/// One value of every kind.
fn menagerie() -> Wire {
    map(vec![
        ("nil", Wire::Nil),
        ("yes", Wire::Boolean(true)),
        ("small", Wire::Unsigned(7)),
        ("large", Wire::Unsigned(u64::MAX)),
        ("negative", Wire::Signed(-3)),
        ("single", Wire::F32(1.5_f32.to_bits())),
        ("double", Wire::F64(0.1_f64.to_bits())),
        ("text", Wire::text("héllo")),
        ("bytes", Wire::Binary(vec![0, 255])),
        ("list", Wire::Array(vec![Wire::Unsigned(1), Wire::Array(Vec::new())])),
        ("extension", Wire::Ext(5, vec![1, 2, 3])),
    ])
}

#[test]
fn every_kind_of_value_reads_back() {
    let value = menagerie();
    let bytes = pack(&value).expect("packs");
    let (read, left) = unpack(&bytes, 16).map_err(|_| ()).expect("unpacks");
    assert_eq!(left, 0);
    assert_eq!(shape(&read), shape(&value));
}

#[test]
fn every_float_reads_back_bit_by_bit() {
    for bits in [f64::NAN.to_bits(), 0x7ff0_0000_0000_0001, (-0.0_f64).to_bits(), f64::MAX.to_bits(), 1] {
        let bytes = pack(&Wire::F64(bits)).expect("packs");
        let (read, left) = unpack(&bytes, 2).map_err(|_| ()).expect("unpacks");
        assert!(matches!(read, Wire::F64(same) if same == bits));
        assert_eq!(left, 0);
    }
    for bits in [f32::NAN.to_bits(), 0x7f80_0001, f32::MIN_POSITIVE.to_bits()] {
        let bytes = pack(&Wire::F32(bits)).expect("packs");
        let (read, _) = unpack(&bytes, 2).map_err(|_| ()).expect("unpacks");
        assert!(matches!(read, Wire::F32(same) if same == bits));
    }
}

#[test]
fn values_know_how_deep_they_nest() {
    let value = Wire::Array(vec![Wire::Nil, Wire::Pairs(vec![(Wire::text("k"), Wire::Ext(1, Vec::new()))])]);
    assert!(value.nests_within(3));
    assert!(!value.nests_within(2));
    assert!(Wire::Nil.nests_within(0));
    assert!(!Wire::Array(Vec::new()).nests_within(0));
}

#[test]
fn message_pack_is_as_compact_as_it_can_be() {
    assert_eq!(pack(&Wire::Unsigned(7)).unwrap(), vec![7]);
    assert_eq!(pack(&Wire::Signed(-1)).unwrap(), vec![0xff]);
    assert_eq!(pack(&Wire::text("ab")).unwrap(), vec![0xa2, b'a', b'b']);
    assert_eq!(pack(&Wire::F64(1.0_f64.to_bits())).unwrap(), vec![0xcb, 0x3f, 0xf0, 0, 0, 0, 0, 0, 0]);
    assert_eq!(pack(&Wire::F32(1.0_f32.to_bits())).unwrap(), vec![0xca, 0x3f, 0x80, 0, 0]);
}

#[test]
fn what_cannot_be_unpacked() {
    assert!(matches!(unpack(&vec![0x92, 1], 16), Err(Unreadable::Truncated)));
    assert!(matches!(unpack(&vec![0x91, 0x91, 0x91, 1], 2), Err(Unreadable::TooDeep)));
    assert!(matches!(unpack(&vec![0xc1], 16), Err(Unreadable::Other(_))));
    let (value, left) = unpack(&vec![1, 2, 3], 16).map_err(|_| ()).unwrap();
    assert_eq!((shape(&value), left), (shape(&Wire::Unsigned(1)), 2));
}

#[test]
fn a_value_for_a_human() {
    assert_eq!(show(&Wire::Unsigned(12)), "12");
    assert_eq!(show(&Wire::Nil), "nil");
    assert_eq!(show(&Wire::Array(vec![Wire::Boolean(false), Wire::Signed(-2)])), "[false, -2]");
}

#[test]
fn an_envelope_reads_back() {
    let envelope = Envelope::new(CorrelationId(42), MessageType::ExecutionStart, menagerie());
    let bytes = encode(&envelope).map_err(|e| e.to_text()).unwrap();
    let read = decode(&bytes).map_err(|f| f.to_text()).unwrap();
    assert_eq!(read.id, Some(CorrelationId(42)));
    assert_eq!(read.message_type, MessageType::ExecutionStart);
    assert_eq!(shape(&read.payload), shape(&envelope.payload));
}

fn failure(value: &Wire) -> (Option<u64>, String, String) {
    let failure = decode(&pack(value).unwrap()).map(|_| ()).unwrap_err();
    (failure.id.map(|id| id.get()), failure.error.code.as_str().to_owned(), failure.error.message)
}

#[test]
fn frames_that_are_no_envelope() {
    let empty = decode(&Vec::new()).map(|_| ()).unwrap_err();
    assert_eq!(empty.error.code, ProtocolCode::MalformedFrame);
    assert_eq!(empty.error.message, "empty frame: expected one MessagePack value");

    let trailing = decode(&vec![1, 2]).map(|_| ()).unwrap_err();
    assert_eq!(trailing.error.message, "1 trailing byte(s) after the MessagePack value");

    let cut = decode(&vec![0x81]).map(|_| ()).unwrap_err();
    assert_eq!(cut.error.code, ProtocolCode::TruncatedFrame);

    let mut deep = Wire::Nil;
    for _ in 0..200 {
        deep = Wire::Array(vec![deep]);
    }
    let deep = decode(&pack(&deep).unwrap()).map(|_| ()).unwrap_err();
    assert_eq!(deep.error.message, "nesting exceeds the limit of 128 levels");

    assert_eq!(failure(&Wire::Unsigned(3)).2, "an envelope must be a map");
    let unknown = failure(&map(vec![("id", Wire::Unsigned(9)), ("type", Wire::text("Nope")), ("payload", Wire::Nil)]));
    assert_eq!((unknown.0, unknown.1.as_str()), (Some(9), "protocol.unknown_message_type"));
    let extra = failure(&map(vec![
        ("id", Wire::Unsigned(9)),
        ("type", Wire::text("Init")),
        ("payload", Wire::Nil),
        ("more", Wire::Nil),
    ]));
    assert_eq!((extra.0, extra.1.as_str()), (Some(9), "protocol.invalid_envelope"));
    let no_id = failure(&map(vec![("type", Wire::text("Init")), ("payload", Wire::Nil)]));
    assert_eq!(no_id.0, None);
}

#[test]
fn a_frame_is_one_whole_value() {
    assert!(matches!(classify(Ok((Wire::Unsigned(4), 0))), Ok(Wire::Unsigned(4))));
    let message = |read| classify(read).map(|_| ()).unwrap_err().error.message;
    assert_eq!(message(Ok((Wire::Nil, 3))), "3 trailing byte(s) after the MessagePack value");
    assert_eq!(message(Err(Unreadable::Truncated)), "the MessagePack value ends before its headers say it does");
    assert_eq!(message(Err(Unreadable::TooDeep)), "nesting exceeds the limit of 128 levels");
    assert_eq!(message(Err(Unreadable::Other("odd".to_owned()))), "not a MessagePack value: odd");
}

#[test]
fn message_types_read_back() {
    for t in MessageType::all() {
        assert_eq!(MessageType::parse(t.as_str()).map_err(|_| ()), Ok(t));
    }
    let unknown = MessageType::parse("init").unwrap_err();
    assert_eq!(unknown.to_text(), "unknown message type \"init\"");
}

#[test]
fn a_stream_of_frames_reads_back_in_pieces() {
    let bodies = [vec![1, 2, 3], Vec::from([9; 300]), vec![7]];
    let mut stream = Vec::new();
    for body in &bodies {
        stream.extend(encode_frame(body).map_err(|e| e.to_text()).unwrap());
    }
    assert_eq!(stream[..7], [0, 0, 0, 3, 1, 2, 3]);
    let mut decoder = FrameDecoder::new();
    let mut read = Vec::new();
    for byte in stream {
        decoder.push(&vec![byte]);
        while let Some(frame) = decoder.next_frame().map_err(|f| f.to_text()).unwrap() {
            read.push(frame);
        }
    }
    assert_eq!(read, bodies);
    assert_eq!(decoder.buffered_len(), 0);
}

#[test]
fn an_oversized_frame_poisons_the_stream() {
    let mut decoder = FrameDecoder::new();
    decoder.push(&vec![0xff, 0xff, 0xff, 0xff]);
    let failure = decoder.next_frame().unwrap_err();
    assert!(failure.error.is_fatal());
    assert_eq!(failure.error.code, ProtocolCode::FrameTooLarge);
    assert!(decoder.is_poisoned());
    decoder.push(&vec![0, 0, 0, 1, 5]);
    assert!(decoder.next_frame().is_err());
    assert!(encode_frame(&vec![0; MAX_FRAME_LEN + 1]).is_err());
    let text = encode_frame(&vec![0; MAX_FRAME_LEN + 1]).map_err(|e| e.to_text()).unwrap_err();
    assert_eq!(text, "frame length 16777217 exceeds the maximum of 16777216 bytes");
}

#[test]
fn the_one_error_shape() {
    let error = ProtocolError::new(ProtocolCode::InvalidPayload, "no".to_owned());
    assert_eq!(error.to_text(), "protocol.invalid_payload: no");
    assert!(!error.is_fatal());
    let reply = error_response(Some(CorrelationId(4)), &ErrorBody::of_protocol(&error));
    assert_eq!(reply.message_type, MessageType::Error);
    assert_eq!(
        shape(&reply.payload),
        shape(&map(vec![
            ("severity", Wire::text("error")),
            ("category", Wire::text("protocol")),
            ("code", Wire::text("protocol.invalid_payload")),
            ("message", Wire::text("no")),
            ("span", Wire::Nil),
        ]))
    );
    let diagnostic = Diagnostic::new(
        Category::Type,
        Code::new(Code::NOT_CALLABLE),
        "cannot call null".to_owned(),
        Span::new(3, 4, 2, 1),
    );
    let body = ErrorBody::of_diagnostic(&diagnostic);
    assert_eq!((body.category.as_str(), body.code.as_str()), ("type", "type.not_callable"));
    assert_eq!(body.span.map(|s| (s.offset, s.len, s.line, s.column)), Some((3, 4, 2, 1)));
}

#[test]
fn client_ids_read_back() {
    let text = "00ff10a0b0c0d0e0f001122334455667";
    let id = ClientId::parse(text).map_err(|e| e.to_text()).unwrap();
    assert_eq!(id.to_text(), text);
    assert_eq!(id.as_bytes()[1], 0xff);
    assert!(ClientId::parse("00FF10a0b0c0d0e0f001122334455667").is_err());
    let error = ClientId::parse("short").unwrap_err();
    assert_eq!(error.to_text(), "a Client ID is exactly 32 lowercase hex characters");
}

#[test]
fn settings_keep_their_ranges() {
    let mut settings = Settings::new();
    assert_eq!(settings.effective(Setting::RpcCalls), 100);
    assert!(settings.set(Setting::RpcCalls, 3).is_ok());
    assert_eq!(settings.effective(Setting::RpcCalls), 3);
    let error = settings.set(Setting::ArgumentDepth, 65).unwrap_err();
    assert_eq!(error.found(), 65);
    assert!(error.to_text().ends_with("must be an integer from 1 to 64; found 65"));
    let mut over = Settings::new();
    over.set(Setting::SideEffects, 0).map_err(|e| e.to_text()).unwrap();
    let both = settings.overlay(&over);
    assert_eq!(both.get(Setting::RpcCalls), Some(3));
    assert_eq!(both.get(Setting::SideEffects), Some(0));
    assert_eq!(both.get(Setting::CpuTimeMs), None);
    for setting in Setting::all() {
        assert!(setting.min() <= setting.default() && setting.default() <= setting.max());
    }
    assert_eq!(Dimension::all().len(), 6);
    assert_eq!(Dimension::OutputSize.as_str(), "output_size");
}

#[test]
fn settings_on_the_wire() {
    let budget = map(vec![("rpc_calls", Wire::Unsigned(5))]);
    let settings = decode_settings(&map(vec![("budget", budget)]), "config").unwrap();
    assert_eq!(settings.get(Setting::RpcCalls), Some(5));
    let refused = decode_settings(&map(vec![("nope", Wire::Nil)]), "config").map(|_| ()).unwrap_err();
    assert_eq!(refused, "`config.nope` is not a known setting");
    let refused = decode_settings(&Wire::Nil, "config").map(|_| ()).unwrap_err();
    assert_eq!(refused, "`config` is not a map");
    let budget = map(vec![("rpc_calls", Wire::text("many"))]);
    let refused = decode_settings(&map(vec![("budget", budget)]), "config").map(|_| ()).unwrap_err();
    assert_eq!(refused, "`config.budget.rpc_calls` must be an integer from 0 to 100000; found a string");
}

#[test]
fn diagnostics_render_with_their_line() {
    let diagnostic = Diagnostic::new(
        Category::Reference,
        Code::new(Code::UNDECLARED_IDENTIFIER),
        "`nope` is not declared".to_owned(),
        Span::new(7, 4, 1, 8),
    );
    let text = render_diagnostic(&diagnostic, "return nope;", RenderOptions::new().with_origin("a.hx"));
    assert!(text.contains("a.hx:1:8"));
    assert!(text.contains("return nope;"));
    assert!(text.contains("^^^^"));
    // A span that does not fit its source renders as one line.
    let text = render_diagnostic(&diagnostic, "x", RenderOptions::new());
    assert!(!text.contains('\n'));
}

#[test]
fn end_of_input_is_shown_on_the_line_before() {
    let rendered = |source: &str, line: usize| {
        let diagnostic = Diagnostic::new(
            Category::Syntax,
            Code::new(Code::EXPECTED_SYNTAX),
            "unexpected end of input".to_owned(),
            Span::new(source.len(), 0, line, 1),
        );
        let text = render_diagnostic(&diagnostic, source, RenderOptions::new());
        let lines: Vec<String> = text.split('\n').skip(1).map(|line| line.to_owned()).collect();
        lines
    };
    assert_eq!(rendered("ab\n", 2), vec!["    ab", "      ^"]);
    assert_eq!(rendered("ab\r\n", 2), vec!["    ab", "      ^"]);
    assert_eq!(rendered("ab\r", 2), vec!["    ab", "      ^"]);
    assert_eq!(rendered("ab\r\r", 3), vec!["    ", "    ^"], "a lone carriage return ends a line of its own");
    assert_eq!(rendered("ab\n\r", 3), vec!["    ", "    ^"]);
}

#[test]
fn pushes_and_reads_may_come_in_any_order() {
    let bodies = vec![vec![1, 2, 3], Vec::new(), Vec::from([9; 300]), vec![7]];
    let mut stream = Vec::new();
    for body in &bodies {
        stream.extend(encode_frame(body).map_err(|e| e.to_text()).unwrap());
    }
    for size in [1, 2, 5, 7, 100, 1_000] {
        let mut decoder = FrameDecoder::new();
        let mut read: Vec<Vec<u8>> = Vec::new();
        let mut pushed = 0;
        for piece in stream.chunks(size) {
            decoder.push(&piece.to_vec());
            pushed += piece.len();
            if let Some(frame) = decoder.next_frame().map_err(|f| f.to_text()).unwrap() {
                read.push(frame);
            }
            let taken: usize = read.iter().map(|body| 4 + body.len()).sum();
            assert_eq!(decoder.buffered_len(), pushed - taken);
            assert!(!decoder.is_poisoned());
        }
        while let Some(frame) = decoder.next_frame().map_err(|f| f.to_text()).unwrap() {
            read.push(frame);
        }
        assert_eq!(read, bodies, "in pieces of {size}");
        assert_eq!(decoder.buffered_len(), 0);
    }
}

#[test]
fn a_decoder_is_poisoned_by_a_failed_read_alone() {
    let mut decoder = FrameDecoder::new();
    decoder.push(&vec![0xff, 0xff, 0xff, 0xff, 1]);
    assert!(!decoder.is_poisoned(), "a push never poisons");
    assert_eq!(decoder.buffered_len(), 5);
    assert!(decoder.next_frame().is_err());
    assert!(decoder.is_poisoned());
    assert_eq!(decoder.buffered_len(), 0);
    decoder.push(&vec![0, 0, 0, 0]);
    assert!(decoder.is_poisoned());
    assert_eq!(decoder.buffered_len(), 0);
}
