use daphne::DapVersion;
use daphne::taskprov::{
    DpConfig, QueryConfig, QueryConfigVar, TaskConfig, UrlBytes, VdafConfig, VdafTypeVar,
};

fn roundtrip_query_config(version: DapVersion) {
    let query_config = QueryConfig {
        time_precision: 12_345_678,
        max_batch_query_count: 1337,
        min_batch_size: 12_345_678,
        var: QueryConfigVar::TimeInterval,
    };
    assert_eq!(
        QueryConfig::get_decoded_with_param(
            version,
            &query_config.get_encoded_with_param(version).unwrap()
        )
        .unwrap(),
        query_config
    );

    let query_config = QueryConfig {
        time_precision: 12_345_678,
        max_batch_query_count: 1337,
        min_batch_size: 12_345_678,
        var: QueryConfigVar::FixedSize {
            max_batch_size: 12_345_678,
        },
    };
    assert_eq!(
        QueryConfig::get_decoded_with_param(
            version,
            &query_config.get_encoded_with_param(version).unwrap()
        )
        .unwrap(),
        query_config
    );
}

#[test]
fn roundtrip_query_config_draft02() {
    roundtrip_query_config(DapVersion::Draft02);
}

#[test]
fn roundtrip_query_config_draft07() {
    roundtrip_query_config(DapVersion::Draft07);
}

#[test]
fn roundtrip_query_config_not_implemented_draft07() {
    let query_config = QueryConfig {
        time_precision: 12_345_678,
        max_batch_query_count: 1337,
        min_batch_size: 12_345_678,
        var: QueryConfigVar::NotImplemented {
            typ: 0,
            param: b"query config param".to_vec(),
        },
    };
    assert_eq!(
        QueryConfig::get_decoded_with_param(
            DapVersion::Draft07,
            &query_config.get_encoded_with_param(DapVersion::Draft07).unwrap()
        )
        .unwrap(),
        query_config
    );
}

#[test]
fn roundtrip_query_config_not_implemented_draft02() {
    let query_config = QueryConfig {
        time_precision: 12_345_678,
        max_batch_query_count: 1337,
        min_batch_size: 12_345_678,
        var: QueryConfigVar::NotImplemented {
            typ: 0,
            param: b"query config param".to_vec(),
        },
    };

    // Expect error because unimplemented query types aren't decodable.
    assert!(QueryConfig::get_decoded_with_param(
        DapVersion::Draft02,
        &query_config.get_encoded_with_param(DapVersion::Draft02).unwrap()
    )
    .is_err());
}

fn roundtrip_dp_config(version: DapVersion) {
    let dp_config = DpConfig::NoDp;
    assert_eq!(
        DpConfig::get_decoded_with_param(
            version,
            &dp_config.get_encoded_with_param(version).unwrap()
        )
        .unwrap(),
        dp_config
    );
}

#[test]
fn roundtrip_dp_config_draft02() {
    roundtrip_dp_config(DapVersion::Draft02);
}

#[test]
fn roundtrip_dp_config_draft07() {
    roundtrip_dp_config(DapVersion::Draft07);
}

#[test]
fn roundtrip_dp_config_not_implemented_draft07() {
    let dp_config = DpConfig::NotImplemented {
        typ: 0,
        param: b"dp mechanism param".to_vec(),
    };
    assert_eq!(
        DpConfig::get_decoded_with_param(
            DapVersion::Draft07,
            &dp_config.get_encoded_with_param(DapVersion::Draft07).unwrap()
        )
        .unwrap(),
        dp_config
    );
}

#[test]
fn roundtrip_dp_config_not_implemented_draft02() {
    let dp_config = DpConfig::NotImplemented {
        typ: 0,
        param: b"dp mechanism param".to_vec(),
    };

    // Expect error because unimplemented mechanisms aren't decodable.
    assert!(DpConfig::get_decoded_with_param(
        DapVersion::Draft02,
        &dp_config.get_encoded_with_param(DapVersion::Draft02).unwrap()
    )
    .is_err());
}

fn roundtrip_vdaf_config(version: DapVersion) {
    let vdaf_config = VdafConfig {
        dp_config: DpConfig::NoDp,
        var: VdafTypeVar::Prio2 { dimension: 1337 },
    };
    assert_eq!(
        VdafConfig::get_decoded_with_param(
            version,
            &vdaf_config.get_encoded_with_param(version).unwrap()
        )
        .unwrap(),
        vdaf_config
    );
}

#[test]
fn roundtrip_vdaf_config_draft02() {
    roundtrip_vdaf_config(DapVersion::Draft02);
}

#[test]
fn roundtrip_vdaf_config_draft07() {
    roundtrip_vdaf_config(DapVersion::Draft07);
}

#[test]
fn roundtrip_vdaf_config_not_implemented_draft07() {
    let vdaf_config = VdafConfig {
        dp_config: DpConfig::NoDp,
        var: VdafTypeVar::NotImplemented {
            typ: 1337,
            param: b"vdaf type param".to_vec(),
        },
    };

    assert_eq!(
        VdafConfig::get_decoded_with_param(
            DapVersion::Draft07,
            &vdaf_config.get_encoded_with_param(DapVersion::Draft07).unwrap()
        )
        .unwrap(),
        vdaf_config
    );
}

#[test]
fn roundtrip_vdaf_config_not_implemented_draft02() {
    let vdaf_config = VdafConfig {
        dp_config: DpConfig::NoDp,
        var: VdafTypeVar::NotImplemented {
            typ: 1337,
            param: b"vdaf type param".to_vec(),
        },
    };

    // Expect error because unimplemented VDAF types aren't decodable.
    assert!(VdafConfig::get_decoded_with_param(
        DapVersion::Draft02,
        &vdaf_config.get_encoded_with_param(DapVersion::Draft02).unwrap()
    )
    .is_err());
}

fn example_task_config() -> TaskConfig {
    TaskConfig {
        task_info: b"example task".to_vec(),
        leader_url: UrlBytes {
            bytes: b"https://leader.example.com/".to_vec(),
        },
        helper_url: UrlBytes {
            bytes: b"https://helper.example.com/".to_vec(),
        },
        query_config: QueryConfig {
            time_precision: 3600,
            max_batch_query_count: 1,
            min_batch_size: 100,
            var: QueryConfigVar::FixedSize {
                max_batch_size: 1000,
            },
        },
        task_expiration: 1_700_604_800,
        vdaf_config: VdafConfig {
            dp_config: DpConfig::NoDp,
            var: VdafTypeVar::Prio2 { dimension: 44 },
        },
    }
}

#[test]
fn roundtrip_task_config_draft02() {
    let task_config = example_task_config();
    assert_eq!(
        TaskConfig::get_decoded_with_param(
            DapVersion::Draft02,
            &task_config.get_encoded_with_param(DapVersion::Draft02).unwrap()
        )
        .unwrap(),
        task_config
    );
}

#[test]
fn roundtrip_task_config_draft07() {
    let task_config = example_task_config();
    assert_eq!(
        TaskConfig::get_decoded_with_param(
            DapVersion::Draft07,
            &task_config.get_encoded_with_param(DapVersion::Draft07).unwrap()
        )
        .unwrap(),
        task_config
    );
}

#[test]
fn truncated_task_config_fails() {
    let task_config = example_task_config();
    for version in [DapVersion::Draft02, DapVersion::Draft07] {
        let encoded = task_config.get_encoded_with_param(version).unwrap();
        for cut in 1..encoded.len() {
            assert!(
                TaskConfig::get_decoded_with_param(version, &encoded[..encoded.len() - cut])
                    .is_err()
            );
        }
    }
}

#[test]
fn query_config_tag_position_depends_on_version() {
    let query_config = QueryConfig {
        time_precision: 3600,
        max_batch_query_count: 1,
        min_batch_size: 100,
        var: QueryConfigVar::TimeInterval,
    };
    // Under Draft02 the single-byte query-type tag leads.
    let draft02 = query_config.get_encoded_with_param(DapVersion::Draft02).unwrap();
    assert_eq!(draft02[0], 0x01);
    // Under Draft07 it follows the three fixed-width fields.
    let draft07 = query_config.get_encoded_with_param(DapVersion::Draft07).unwrap();
    assert_eq!(draft07[8 + 2 + 4], 0x01);
}
