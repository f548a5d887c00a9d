use daphne::aggregate::{
    AggregateContinueReq, AggregateInitializeReq, AggregateResp, AggregateShareReq,
    AggregateShareResp, BatchParameter, Transition, TransitionFailure, TransitionVar,
};
use daphne::codec::{CodecError, encode_u16_bytes, encode_u32_bytes, decode_u16_bytes, decode_u32_bytes};
use daphne::hpke::{HpkeAeadId, HpkeCiphertext, HpkeConfig, HpkeKdfId, HpkeKemId};
use daphne::messages::{
    CollectReq, CollectResp, Extension, Id, Interval, Nonce, Query, Report, ReportMetadata,
    ReportShare, constant_time_eq,
};

fn example_report() -> Report {
    Report {
        task_id: Id(vec![0x01; 32]),
        metadata: ReportMetadata {
            time: 1_700_000_000,
            nonce: Nonce(vec![0x02; 16]),
            extensions: vec![Extension::Unhandled {
                typ: 5,
                payload: vec![0xAA, 0xBB],
            }],
        },
        public_share: Vec::new(),
        encrypted_input_shares: vec![
            HpkeCiphertext {
                config_id: 23,
                enc: vec![1, 2, 3],
                payload: vec![4, 5, 6, 7],
            },
            HpkeCiphertext {
                config_id: 24,
                enc: vec![8, 9],
                payload: vec![10],
            },
        ],
    }
}

#[test]
fn roundtrip_report() {
    let report = example_report();
    let encoded = report.get_encoded().unwrap();
    // The 32-byte task identifier leads, raw.
    assert_eq!(&encoded[..32], &[0x01; 32][..]);
    // The 64-bit time follows, big-endian.
    assert_eq!(&encoded[32..40], &[0, 0, 0, 0, 0x65, 0x53, 0xF1, 0x00][..]);
    // Then the 16-byte nonce.
    assert_eq!(&encoded[40..56], &[0x02; 16][..]);
    let decoded = Report::get_decoded(&encoded).unwrap();
    assert_eq!(decoded, report);
}

#[test]
fn truncated_report_fails() {
    let encoded = example_report().get_encoded().unwrap();
    for cut in 1..encoded.len() {
        assert!(Report::get_decoded(&encoded[..encoded.len() - cut]).is_err());
    }
}

#[test]
fn report_with_leftover_bytes_fails() {
    let mut encoded = example_report().get_encoded().unwrap();
    encoded.push(0);
    assert!(Report::get_decoded(&encoded).is_err());
}

#[test]
fn transition_failure_codes() {
    let variants = [
        TransitionFailure::BatchCollected,
        TransitionFailure::ReportReplayed,
        TransitionFailure::ReportDropped,
        TransitionFailure::HpkeUnknownConfigId,
        TransitionFailure::HpkeDecryptError,
        TransitionFailure::VdafPrepError,
        TransitionFailure::BatchSaturated,
    ];
    for (code, failure) in variants.iter().enumerate() {
        let mut bytes = Vec::new();
        failure.encode(&mut bytes).unwrap();
        assert_eq!(bytes, vec![code as u8]);
        assert_eq!(TransitionFailure::try_from(code as u8).unwrap(), *failure);
    }
    // Decoding the next code up fails.
    assert!(TransitionFailure::try_from(0x07).is_err());
    let bytes = [0x07u8];
    let mut pos = 0;
    assert!(TransitionFailure::decode(&bytes, &mut pos).is_err());
}

#[test]
fn transition_failure_display() {
    assert_eq!(TransitionFailure::BatchCollected.display(), "batch-collected(0)");
    assert_eq!(TransitionFailure::BatchSaturated.display(), "batch-saturated(6)");
}

#[test]
fn hpke_kem_id_fallback() {
    // A KEM field holding an unknown code decodes to the catch-all variant and
    // re-encodes to the same two bytes.
    let bytes = [0x12u8, 0x34u8];
    let mut pos = 0;
    let kem_id = HpkeKemId::decode(&bytes, &mut pos).unwrap();
    assert_eq!(kem_id, HpkeKemId::NotImplemented(0x1234));
    let mut reencoded = Vec::new();
    kem_id.encode(&mut reencoded).unwrap();
    assert_eq!(reencoded, vec![0x12, 0x34]);
}

#[test]
fn hpke_identifiers_roundtrip() {
    for kem_id in [
        HpkeKemId::P256HkdfSha256,
        HpkeKemId::X25519HkdfSha256,
        HpkeKemId::NotImplemented(0x7777),
    ] {
        let mut bytes = Vec::new();
        kem_id.encode(&mut bytes).unwrap();
        let mut pos = 0;
        assert_eq!(HpkeKemId::decode(&bytes, &mut pos).unwrap(), kem_id);
    }
    for kdf_id in [HpkeKdfId::HkdfSha256, HpkeKdfId::NotImplemented(0x7777)] {
        let mut bytes = Vec::new();
        kdf_id.encode(&mut bytes).unwrap();
        let mut pos = 0;
        assert_eq!(HpkeKdfId::decode(&bytes, &mut pos).unwrap(), kdf_id);
    }
    for aead_id in [HpkeAeadId::Aes128Gcm, HpkeAeadId::NotImplemented(0x7777)] {
        let mut bytes = Vec::new();
        aead_id.encode(&mut bytes).unwrap();
        let mut pos = 0;
        assert_eq!(HpkeAeadId::decode(&bytes, &mut pos).unwrap(), aead_id);
    }
}

#[test]
fn roundtrip_hpke_config() {
    let config = HpkeConfig {
        id: 23,
        kem_id: HpkeKemId::X25519HkdfSha256,
        kdf_id: HpkeKdfId::HkdfSha256,
        aead_id: HpkeAeadId::Aes128Gcm,
        public_key: vec![9; 32],
    };
    let encoded = config.get_encoded().unwrap();
    assert_eq!(HpkeConfig::get_decoded(&encoded).unwrap(), config);
}

#[test]
fn oversize_payload_fails_to_encode() {
    // A payload longer than its 16-bit length prefix can say is refused.
    let mut bytes = Vec::new();
    let payload = vec![0u8; 0x10000];
    assert_eq!(
        encode_u16_bytes(&mut bytes, &payload),
        Err(CodecError::LengthOverflow)
    );
    let extension = Extension::Unhandled {
        typ: 1,
        payload: vec![0u8; 0x10000],
    };
    let mut bytes = Vec::new();
    assert_eq!(extension.encode(&mut bytes), Err(CodecError::LengthOverflow));
}

#[test]
fn length_prefixed_bytes_roundtrip() {
    let mut bytes = Vec::new();
    encode_u16_bytes(&mut bytes, &[1, 2, 3]).unwrap();
    assert_eq!(bytes, vec![0, 3, 1, 2, 3]);
    let mut pos = 0;
    assert_eq!(decode_u16_bytes(&bytes, &mut pos).unwrap(), vec![1, 2, 3]);
    assert_eq!(pos, 5);

    let mut bytes = Vec::new();
    encode_u32_bytes(&mut bytes, &[7, 8]).unwrap();
    assert_eq!(bytes, vec![0, 0, 0, 2, 7, 8]);
    let mut pos = 0;
    assert_eq!(decode_u32_bytes(&bytes, &mut pos).unwrap(), vec![7, 8]);
    assert_eq!(pos, 6);

    // Truncating the payload by one byte yields a read error.
    let bytes = vec![0u8, 3, 1, 2];
    let mut pos = 0;
    assert_eq!(decode_u16_bytes(&bytes, &mut pos), Err(CodecError::ShortRead));
}

fn example_aggregate_initialize_req() -> AggregateInitializeReq {
    AggregateInitializeReq {
        task_id: Id(vec![0x03; 32]),
        agg_job_id: Id(vec![0x04; 32]),
        agg_param: vec![1, 2],
        batch_param: BatchParameter::FixedSize {
            batch_id: Id(vec![0x05; 32]),
        },
        report_shares: vec![ReportShare {
            metadata: ReportMetadata {
                time: 1_700_000_000,
                nonce: Nonce(vec![0x06; 16]),
                extensions: Vec::new(),
            },
            public_share: vec![9, 9],
            encrypted_input_share: HpkeCiphertext {
                config_id: 1,
                enc: vec![2],
                payload: vec![3, 4],
            },
        }],
    }
}

#[test]
fn roundtrip_aggregate_initialize_req() {
    let req = example_aggregate_initialize_req();
    let mut encoded = Vec::new();
    req.encode(&mut encoded).unwrap();
    let mut pos = 0;
    let decoded = AggregateInitializeReq::decode(&encoded, &mut pos).unwrap();
    assert_eq!(pos, encoded.len());
    assert_eq!(decoded, req);
}

#[test]
fn truncated_aggregate_initialize_req_fails() {
    let mut encoded = Vec::new();
    example_aggregate_initialize_req().encode(&mut encoded).unwrap();
    for cut in 1..encoded.len() {
        let mut pos = 0;
        assert!(AggregateInitializeReq::decode(&encoded[..encoded.len() - cut], &mut pos).is_err());
    }
}

#[test]
fn roundtrip_aggregate_continue_req_and_resp() {
    let transitions = vec![
        Transition {
            nonce: Nonce(vec![0x07; 16]),
            var: TransitionVar::Continued(vec![1, 2, 3]),
        },
        Transition {
            nonce: Nonce(vec![0x08; 16]),
            var: TransitionVar::Finished,
        },
        Transition {
            nonce: Nonce(vec![0x09; 16]),
            var: TransitionVar::Failed(TransitionFailure::VdafPrepError),
        },
    ];
    let req = AggregateContinueReq {
        task_id: Id(vec![0x0A; 32]),
        agg_job_id: Id(vec![0x0B; 32]),
        transitions: transitions.clone(),
    };
    let mut encoded = Vec::new();
    req.encode(&mut encoded).unwrap();
    let mut pos = 0;
    assert_eq!(AggregateContinueReq::decode(&encoded, &mut pos).unwrap(), req);

    let resp = AggregateResp { transitions };
    let mut encoded = Vec::new();
    resp.encode(&mut encoded).unwrap();
    let mut pos = 0;
    assert_eq!(AggregateResp::decode(&encoded, &mut pos).unwrap(), resp);
}

#[test]
fn transition_var_unknown_tag_fails() {
    let bytes = [0x03u8];
    let mut pos = 0;
    assert_eq!(
        TransitionVar::decode(&bytes, &mut pos),
        Err(CodecError::UnexpectedValue)
    );
}

#[test]
fn roundtrip_collect_req_and_resp() {
    let req = CollectReq {
        task_id: Id(vec![0x0C; 32]),
        query: Query::TimeInterval {
            batch_interval: Interval {
                start: 1_699_999_200,
                duration: 3600,
            },
        },
        agg_param: vec![1],
    };
    let mut encoded = Vec::new();
    req.encode(&mut encoded).unwrap();
    let mut pos = 0;
    assert_eq!(CollectReq::decode(&encoded, &mut pos).unwrap(), req);

    let resp = CollectResp {
        report_count: 12,
        encrypted_agg_shares: vec![HpkeCiphertext {
            config_id: 3,
            enc: vec![1],
            payload: vec![2, 3],
        }],
    };
    let mut encoded = Vec::new();
    resp.encode(&mut encoded).unwrap();
    let mut pos = 0;
    assert_eq!(CollectResp::decode(&encoded, &mut pos).unwrap(), resp);
}

#[test]
fn roundtrip_aggregate_share_req_and_resp() {
    let req = AggregateShareReq {
        task_id: Id(vec![0x0D; 32]),
        batch_selector: Query::FixedSize {
            batch_id: Id(vec![0x0E; 32]),
        },
        agg_param: Vec::new(),
        report_count: 100,
        checksum: vec![0x0F; 32],
    };
    let mut encoded = Vec::new();
    req.encode(&mut encoded).unwrap();
    let mut pos = 0;
    assert_eq!(AggregateShareReq::decode(&encoded, &mut pos).unwrap(), req);

    let resp = AggregateShareResp {
        encrypted_agg_share: HpkeCiphertext {
            config_id: 9,
            enc: vec![1, 2],
            payload: vec![3],
        },
    };
    let mut encoded = Vec::new();
    resp.encode(&mut encoded).unwrap();
    let mut pos = 0;
    assert_eq!(AggregateShareResp::decode(&encoded, &mut pos).unwrap(), resp);
}

#[test]
fn query_unknown_tag_fails() {
    let bytes = [0x00u8, 0x03];
    let mut pos = 0;
    assert_eq!(Query::decode(&bytes, &mut pos), Err(CodecError::UnexpectedValue));
}

#[test]
fn query_default_and_unwrap_interval() {
    let query = Query::default();
    let interval = query.unwrap_interval().unwrap();
    assert_eq!(*interval, Interval { start: 0, duration: 0 });
    let fixed = Query::FixedSize { batch_id: Id(vec![0x10; 32]) };
    assert!(fixed.unwrap_interval().is_none());
}

#[test]
fn interval_end() {
    let interval = Interval { start: 1000, duration: 500 };
    assert_eq!(interval.end(), 1500);
}

#[test]
fn id_display_encodings() {
    let id = Id(vec![0x01; 32]);
    assert_eq!(
        id.to_hex(),
        "0101010101010101010101010101010101010101010101010101010101010101"
    );
    assert_eq!(id.to_base64url(), "AQEBAQEBAQEBAQEBAQEBAQEBAQEBAQEBAQEBAQEBAQE");
}

#[test]
fn constant_time_eq_matches_equality() {
    assert!(constant_time_eq(&[1, 2, 3], &[1, 2, 3]));
    assert!(!constant_time_eq(&[1, 2, 3], &[1, 2, 4]));
    assert!(!constant_time_eq(&[1, 2, 3], &[1, 2]));
    assert!(constant_time_eq(&[], &[]));
}

#[test]
fn roundtrip_extension() {
    let extension = Extension::Unhandled { typ: 5, payload: vec![0xAA, 0xBB] };
    let mut encoded = Vec::new();
    extension.encode(&mut encoded).unwrap();
    assert_eq!(encoded, vec![0, 5, 0, 2, 0xAA, 0xBB]);
    let mut pos = 0;
    assert_eq!(Extension::decode(&encoded, &mut pos).unwrap(), extension);
}
