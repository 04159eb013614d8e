use kafka_protocol::messages::BrokerId;
use kafka_protocol::messages::MetadataResponse;
use kafka_protocol::messages::ResponseHeader;
use kafka_protocol::messages::metadata_response::MetadataResponseBroker;
use kafka_protocol::protocol::Decodable;
use kafka_protocol::protocol::Encodable;
use kafka_protocol::protocol::HeaderVersion;
use kafka_protocol::protocol::StrBytes;

use conduktor_kafka_proxy::ErrorKind;
use conduktor_kafka_proxy::auth::hex_encode;
use conduktor_kafka_proxy::kafka::FrameAccumulator;
use conduktor_kafka_proxy::kafka::KafkaProxy;
use conduktor_kafka_proxy::kafka::KafkaResponse;
use conduktor_kafka_proxy::kafka::KafkaServerCodec;
use conduktor_kafka_proxy::kafka::ResponseStep;
use conduktor_kafka_proxy::kafka::broker_list;
use conduktor_kafka_proxy::kafka::encode_metadata_frame;
use conduktor_kafka_proxy::kafka::unknown_brokers;
use conduktor_kafka_proxy::proxy_state::ProxyState;
use conduktor_kafka_proxy::proxy_state::Url;

/// A length-prefixed frame around a payload.
fn frame(payload: &[u8]) -> Vec<u8> {
    let mut f = (payload.len() as u32).to_be_bytes().to_vec();
    f.extend_from_slice(payload);
    f
}

/// A Kafka request frame: api key, api version, correlation id, no body.
fn request_frame(api_key: i16, api_version: i16, correlation_id: i32) -> Vec<u8> {
    let mut payload = Vec::new();
    payload.extend_from_slice(&api_key.to_be_bytes());
    payload.extend_from_slice(&api_version.to_be_bytes());
    payload.extend_from_slice(&correlation_id.to_be_bytes());
    frame(&payload)
}

/// A broker entry for a metadata response.
fn broker(id: i32, host: &str, port: i32) -> MetadataResponseBroker {
    let mut b = MetadataResponseBroker::default();
    b.node_id = BrokerId(id);
    b.host = StrBytes::from_string(host.to_string());
    b.port = port;
    b
}

/// A metadata response advertising the given brokers.
fn metadata_response(brokers: Vec<MetadataResponseBroker>) -> MetadataResponse {
    let mut m = MetadataResponse::default();
    m.brokers = brokers;
    m.controller_id = BrokerId(1);
    m
}

/// A whole metadata response frame at `version` with this correlation id.
fn metadata_response_frame(version: i16, correlation_id: i32, m: &MetadataResponse) -> Vec<u8> {
    let mut header = ResponseHeader::default();
    header.correlation_id = correlation_id;
    let mut payload: Vec<u8> = Vec::new();
    header
        .encode(&mut payload, MetadataResponse::header_version(version))
        .unwrap();
    m.encode(&mut payload, version).unwrap();
    frame(&payload)
}

/// The brokers advertised by an encoded response frame, decoded back.
fn decode_brokers(out: &[u8], version: i16) -> Vec<(String, i32)> {
    let mut buf = &out[4..];
    ResponseHeader::decode(&mut buf, MetadataResponse::header_version(version)).unwrap();
    let m = MetadataResponse::decode(&mut buf, version).unwrap();
    m.brokers
        .iter()
        .map(|b| (b.host.as_str().to_string(), b.port))
        .collect()
}

#[test]
fn hex_encode_exact() {
    assert_eq!(hex_encode(&vec![]), Vec::<u8>::new());
    assert_eq!(hex_encode(&vec![0x00, 0xff, 0x1a]), b"00ff1a".to_vec());
    assert_eq!(hex_encode(&vec![0xde, 0xad, 0xbe, 0xef]), b"deadbeef".to_vec());
}

#[test]
fn accumulator_splits_frames_in_order() {
    let f1 = frame(b"first payload");
    let f2 = frame(b"");
    let f3 = frame(&[42u8; 300]);
    let mut stream = Vec::new();
    stream.extend_from_slice(&f1);
    stream.extend_from_slice(&f2);
    stream.extend_from_slice(&f3);

    let mut acc = FrameAccumulator::new();
    // Feed the bytes in chunks that straddle the frame boundaries.
    for chunk in stream.chunks(7) {
        acc.push_chunk(chunk);
    }
    assert_eq!(acc.next_frame().unwrap(), f1);
    assert_eq!(acc.next_frame().unwrap(), f2);
    assert_eq!(acc.next_frame().unwrap(), f3);
    assert!(acc.next_frame().is_none());
}

#[test]
fn accumulator_waits_for_whole_frames() {
    let f = frame(b"abcdef");
    let mut acc = FrameAccumulator::new();
    acc.push_chunk(&f[..5]);
    assert!(acc.next_frame().is_none());
    acc.push_chunk(&f[5..]);
    assert_eq!(acc.next_frame().unwrap(), f);
}

#[test]
fn unregistered_response_passes_through_untouched() {
    let proxy = KafkaProxy::new("rendezvous.example", None);
    let mut codec = KafkaServerCodec::new();
    // A response whose correlation id nobody registered: even a valid
    // metadata payload stays opaque.
    let m = metadata_response(vec![broker(1, "10.0.0.1", 9092)]);
    let f = metadata_response_frame(1, 77, &m);
    match proxy.process_response_frame(&mut codec, f.clone()).unwrap() {
        ResponseStep::Forwarded(out) => assert_eq!(out, f),
        _ => panic!("an unregistered frame must be forwarded"),
    }
    // Short garbage frames pass through as well.
    let tiny = frame(b"ab");
    match proxy.process_response_frame(&mut codec, tiny.clone()).unwrap() {
        ResponseStep::Forwarded(out) => assert_eq!(out, tiny),
        _ => panic!("a short frame must be forwarded"),
    }
}

#[test]
fn only_metadata_requests_register() {
    let proxy = KafkaProxy::new("rendezvous.example", None);
    let mut codec = KafkaServerCodec::new();
    // A Produce request (api key 0) does not register its correlation id.
    codec.register_request(&request_frame(0, 9, 501));
    let m = metadata_response(vec![broker(1, "10.0.0.1", 9092)]);
    let f = metadata_response_frame(1, 501, &m);
    match proxy.process_response_frame(&mut codec, f.clone()).unwrap() {
        ResponseStep::Forwarded(out) => assert_eq!(out, f),
        _ => panic!("a response to a non-metadata request must be forwarded"),
    }
}

#[test]
fn registered_response_is_decoded_and_rewritten() {
    let mut proxy = KafkaProxy::new("rendezvous.example", None);
    let mut codec = KafkaServerCodec::new();
    let version: i16 = 1;

    codec.register_request(&request_frame(3, version, 77));

    let m = metadata_response(vec![
        broker(1, "10.0.0.1", 9092),
        broker(2, "10.0.0.2", 9092),
    ]);
    let f = metadata_response_frame(version, 77, &m);

    let (got_version, header, mut body, missing) =
        match proxy.process_response_frame(&mut codec, f).unwrap() {
            ResponseStep::NeedTunnels(v, h, b, missing) => (v, h, b, missing),
            _ => panic!("a registered metadata response must be decoded"),
        };
    assert_eq!(got_version, version);
    assert_eq!(
        missing,
        vec![
            Url::new("10.0.0.1".to_string(), 9092),
            Url::new("10.0.0.2".to_string(), 9092),
        ]
    );

    // Open a tunnel for each discovered broker, then rewrite.
    proxy.insert_broker(Url::new("10.0.0.1".to_string(), 9092), 40001);
    proxy.insert_broker(Url::new("10.0.0.2".to_string(), 9092), 40002);
    let out = proxy.finish_metadata(version, header, &mut body).unwrap();

    // The original header bytes — the echoed correlation id — survive.
    assert_eq!(&out[4..8], &77i32.to_be_bytes());
    assert_eq!(
        decode_brokers(&out, version),
        vec![
            ("rendezvous.example".to_string(), 40001),
            ("rendezvous.example".to_string(), 40002),
        ]
    );

    // The entry is consumed: the same correlation id now passes through.
    let m2 = metadata_response(vec![broker(1, "10.0.0.1", 9092)]);
    let f2 = metadata_response_frame(version, 77, &m2);
    match proxy.process_response_frame(&mut codec, f2.clone()).unwrap() {
        ResponseStep::Forwarded(out) => assert_eq!(out, f2),
        _ => panic!("a consumed correlation id must not select again"),
    }
}

#[test]
fn finish_metadata_requires_every_tunnel() {
    let mut proxy = KafkaProxy::new("rendezvous.example", None);
    proxy.insert_broker(Url::new("10.0.0.1".to_string(), 9092), 40001);
    // The second broker has no tunnel: the flow must fail.
    let mut body = metadata_response(vec![
        broker(1, "10.0.0.1", 9092),
        broker(2, "10.0.0.2", 9092),
    ]);
    let err = proxy
        .finish_metadata(1, vec![0, 0, 0, 77], &mut body)
        .unwrap_err();
    assert_eq!(err, ErrorKind::UnknownBroker);
}

#[test]
fn registered_garbage_fails_with_decode_error() {
    let proxy = KafkaProxy::new("rendezvous.example", None);
    let mut codec = KafkaServerCodec::new();
    codec.register_request(&request_frame(3, 1, 42));
    // Correct correlation id, malformed metadata payload.
    let f = frame(&[0, 0, 0, 42, 0xde, 0xad]);
    let err = match proxy.process_response_frame(&mut codec, f) {
        Err(e) => e,
        Ok(_) => panic!("garbage behind a registered id must fail the flow"),
    };
    assert_eq!(err, ErrorKind::Decode);
}

#[test]
fn rewrite_is_idempotent_once_brokers_point_home() {
    let mut proxy = KafkaProxy::new("rendezvous.example", None);
    proxy.insert_broker(Url::new("rendezvous.example".to_string(), 40001), 40001);
    proxy.insert_broker(Url::new("rendezvous.example".to_string(), 40002), 40002);

    let mut body = metadata_response(vec![
        broker(1, "rendezvous.example", 40001),
        broker(2, "rendezvous.example", 40002),
    ]);
    proxy.adapt_metadata(&mut body).unwrap();
    let first: Vec<(String, i32)> = body
        .brokers
        .iter()
        .map(|b| (b.host.as_str().to_string(), b.port))
        .collect();
    assert_eq!(
        first,
        vec![
            ("rendezvous.example".to_string(), 40001),
            ("rendezvous.example".to_string(), 40002),
        ]
    );
    proxy.adapt_metadata(&mut body).unwrap();
    let second: Vec<(String, i32)> = body
        .brokers
        .iter()
        .map(|b| (b.host.as_str().to_string(), b.port))
        .collect();
    assert_eq!(first, second);
}

#[test]
fn unknown_brokers_filters_and_dedups_in_order() {
    let mut pool = ProxyState::new(None);
    pool.insert_broker(Url::new("10.0.0.1".to_string(), 9092), 40001);
    let listed = vec![
        Url::new("10.0.0.1".to_string(), 9092),
        Url::new("10.0.0.2".to_string(), 9092),
        Url::new("10.0.0.3".to_string(), 9092),
        Url::new("10.0.0.2".to_string(), 9092),
    ];
    let missing = unknown_brokers(&listed, &pool);
    assert_eq!(
        missing,
        vec![
            Url::new("10.0.0.2".to_string(), 9092),
            Url::new("10.0.0.3".to_string(), 9092),
        ]
    );
}

#[test]
fn broker_list_reads_the_advertised_endpoints() {
    let m = metadata_response(vec![
        broker(1, "b1.internal", 9092),
        broker(2, "b2.internal", 9093),
    ]);
    let listed = broker_list(&m);
    assert_eq!(
        listed,
        vec![
            Url::new("b1.internal".to_string(), 9092),
            Url::new("b2.internal".to_string(), 9093),
        ]
    );
}

#[test]
fn codec_encode_is_identity_on_opaque_frames() {
    let codec = KafkaServerCodec::new();
    let f = frame(b"opaque payload");
    match codec.encode(KafkaResponse::UndecodedResponse(f.clone())) {
        Ok(out) => assert_eq!(out, f),
        Err(_) => panic!("opaque frames must re-encode verbatim"),
    }
}

#[test]
fn encode_metadata_frame_keeps_header_and_prefix() {
    let m = metadata_response(vec![broker(1, "b1", 9092)]);
    let header = vec![0, 0, 0, 77];
    let out = encode_metadata_frame(&header, &m, 1).unwrap();
    // 4-byte big-endian prefix announcing the rest.
    let announced = u32::from_be_bytes([out[0], out[1], out[2], out[3]]) as usize;
    assert_eq!(announced + 4, out.len());
    // Header bytes kept verbatim.
    assert_eq!(&out[4..8], &header[..]);
    // The body decodes back to the same brokers.
    assert_eq!(decode_brokers(&out, 1), vec![("b1".to_string(), 9092)]);
}

#[test]
fn empty_broker_list_adapts_trivially() {
    let proxy = KafkaProxy::new("rendezvous.example", None);
    let mut codec = KafkaServerCodec::new();
    codec.register_request(&request_frame(3, 1, 9));
    let m = metadata_response(vec![]);
    let f = metadata_response_frame(1, 9, &m);
    let (version, header, mut body, missing) =
        match proxy.process_response_frame(&mut codec, f).unwrap() {
            ResponseStep::NeedTunnels(v, h, b, missing) => (v, h, b, missing),
            _ => panic!("a registered metadata response must be decoded"),
        };
    assert!(missing.is_empty());
    let out = proxy.finish_metadata(version, header, &mut body).unwrap();
    assert_eq!(decode_brokers(&out, 1), Vec::<(String, i32)>::new());
}

#[test]
fn encode_fails_on_an_unsupported_version() {
    let m = metadata_response(vec![broker(1, "b1", 9092)]);
    let err = encode_metadata_frame(&vec![0, 0, 0, 1], &m, 99).unwrap_err();
    assert_eq!(err, ErrorKind::Encode);
}

#[test]
fn accumulator_waits_for_the_length_prefix() {
    let mut acc = FrameAccumulator::new();
    acc.push_chunk(&[0, 0]);
    assert!(acc.next_frame().is_none());
    acc.push_chunk(&[0, 2]);
    assert!(acc.next_frame().is_none());
    acc.push_chunk(&[0xaa, 0xbb]);
    assert_eq!(acc.next_frame().unwrap(), vec![0, 0, 0, 2, 0xaa, 0xbb]);
}

#[test]
fn unsupported_version_falls_through_to_passthrough() {
    let proxy = KafkaProxy::new("rendezvous.example", None);
    let mut codec = KafkaServerCodec::new();
    // A metadata request at a version the decoder does not understand:
    // the matching response is forwarded opaque rather than failed.
    codec.register_request(&request_frame(3, 99, 321));
    let f = frame(&[0, 0, 1, 65, 0xde, 0xad, 0xbe, 0xef]);
    match proxy.process_response_frame(&mut codec, f.clone()).unwrap() {
        ResponseStep::Forwarded(out) => assert_eq!(out, f),
        _ => panic!("an unsupported version must pass through"),
    }
}
