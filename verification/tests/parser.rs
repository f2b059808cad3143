use profiling2::deflate::DecompressionError;
use profiling2::libserialize::{deserialize, from_bytes, from_str, DeserializationError};
use profiling2::parser::{
    parse_compressed_recording, parse_data, parse_saved_variables, parsed_data,
    test_parse_data, SavedVariablesError, TestParseError,
};
use profiling2::savedvariables::{ParseError, ValueKind};
use profiling2::schema::{expect_bool, expect_float, expect_int, expect_text, expect_unsigned};
use profiling2::types::{
    deserialize_bins, encounter, float_map, float_seq, key_index, parsed_recording, recording,
    saved_variables, sketch_params, sketch_stats, sparse_bins, stats, tracker_core,
    tracker_data, tracker_map, Encounter, ParsedRecording, Recording, RecordingData,
    SavedVariables, SketchParams, SketchStats, Stats, TrackerCore, TrackerData,
};
use profiling2::value::{Table, Value};
use std::borrow::Cow;

const STREAM: [u8; 480] = [1, 54, 114, 115, 99, 114, 105, 112, 116, 115, 38, 112, 17, 65, 100, 100, 111, 110, 47, 99, 111, 114, 101, 46, 108, 117, 97, 58, 49, 50, 118, 82, 115, 116, 97, 116, 115, 70, 66, 109, 101, 97, 110, 72, 63, 169, 154, 233, 36, 242, 39, 208, 66, 115, 107, 101, 119, 72, 191, 206, 6, 15, 228, 121, 145, 188, 114, 115, 97, 109, 112, 108, 101, 115, 74, 3, 5, 7, 9, 146, 113, 117, 97, 110, 116, 105, 108, 101, 115, 38, 50, 48, 46, 53, 80, 4, 48, 46, 48, 53, 66, 48, 46, 55, 53, 80, 4, 48, 46, 48, 54, 66, 116, 111, 112, 53, 42, 72, 63, 224, 0, 0, 0, 0, 0, 0, 72, 63, 208, 0, 0, 0, 0, 0, 0, 82, 99, 97, 108, 108, 115, 21, 114, 99, 111, 109, 109, 105, 116, 115, 15, 162, 116, 111, 116, 97, 108, 95, 116, 105, 109, 101, 72, 63, 248, 0, 0, 0, 0, 0, 0, 194, 111, 102, 102, 105, 99, 105, 97, 108, 84, 105, 109, 101, 72, 64, 4, 0, 0, 0, 0, 0, 0, 146, 100, 101, 112, 101, 110, 100, 101, 110, 116, 96, 82, 102, 114, 97, 109, 101, 70, 98, 115, 107, 101, 116, 99, 104, 70, 130, 111, 117, 116, 108, 105, 101, 114, 115, 26, 72, 64, 35, 0, 0, 0, 0, 0, 0, 66, 98, 105, 110, 115, 38, 5, 72, 64, 8, 0, 0, 0, 0, 0, 0, 1, 3, 82, 99, 111, 117, 110, 116, 196, 18, 210, 116, 114, 105, 118, 105, 97, 108, 95, 99, 111, 117, 110, 116, 11, 82, 99, 97, 108, 108, 115, 3, 114, 99, 111, 109, 109, 105, 116, 115, 3, 162, 116, 111, 116, 97, 108, 95, 116, 105, 109, 101, 5, 210, 111, 110, 85, 112, 100, 97, 116, 101, 68, 101, 108, 97, 121, 70, 98, 115, 107, 101, 116, 99, 104, 54, 130, 111, 117, 116, 108, 105, 101, 114, 115, 10, 82, 99, 111, 117, 110, 116, 1, 210, 116, 114, 105, 118, 105, 97, 108, 95, 99, 111, 117, 110, 116, 1, 82, 99, 97, 108, 108, 115, 1, 114, 99, 111, 109, 109, 105, 116, 115, 1, 162, 116, 111, 116, 97, 108, 95, 116, 105, 109, 101, 72, 0, 0, 0, 0, 0, 0, 0, 0, 210, 115, 107, 101, 116, 99, 104, 95, 112, 97, 114, 97, 109, 115, 70, 82, 97, 108, 112, 104, 97, 72, 63, 169, 153, 153, 153, 153, 153, 154, 82, 103, 97, 109, 109, 97, 72, 63, 241, 153, 153, 153, 153, 153, 154, 162, 98, 105, 110, 95, 111, 102, 102, 115, 101, 116, 76, 1, 226, 116, 114, 105, 118, 105, 97, 108, 95, 99, 117, 116, 111, 102, 102, 72, 63, 64, 98, 77, 210, 241, 169, 252];
const BLOB: &str = "vbvplnmuuudP1phkk4IRkvWHySqRGljgKqquqc6C81KxTp89YlM3nv6Q)dSB2XU1)dccIZsj)ceXfhRto4GV2NTupt3ZHlNZ5E1QLkctjjGOCYQhgfXJ3nKNInOzOd2RslFbGaHRddJI9S639ZT(A7boIRX3690RZx6J23)yQaXsOyXX6fxyPo3KHIbIKwUIPr1ZkyAyw1X0yF1ynhGNuDhpR3MBm8SgOg8druQy90qoJrarPEahq0aGWWEwFR25zEJgKqcIE(iv7ck1or4eCCeogU0VrkIHDRlRhe209oEgqj4uXgE2BQw2PojwuUON9IkUMUFiplgEzTCiL0s6DWy(kQ(OpPp6Z0NI584lsIqa(imf1EsC1Mg3Ykp1(VLAkl1MyP2SN4C)HCLxbji5LiC9r0KMi5F)HrOR)vigtshQO9KhtG8NiWWjAVpnSmqQ5zzx)08H9)5x";

fn text(s: &str) -> Value<'_> {
    Value::String(Cow::Borrowed(s.as_bytes()))
}

fn key(s: &str) -> Cow<'_, [u8]> {
    Cow::Borrowed(s.as_bytes())
}

fn float(x: f64) -> Value<'static> {
    Value::Float(x.to_bits())
}

fn named<'a>(entries: Vec<(&'a str, Value<'a>)>) -> Value<'a> {
    Value::Table(Table::Named(entries.into_iter().map(|(k, v)| (key(k), v)).collect()))
}

fn bits(xs: &[f64]) -> Vec<u64> {
    xs.iter().map(|x| x.to_bits()).collect()
}

fn find<'b>(entries: &'b [(Cow<'_, [u8]>, TrackerData)], k: &str) -> &'b TrackerData {
    &entries.iter().rev().find(|e| &e.0[..] == k.as_bytes()).unwrap().1
}

#[test]
fn parse_empty() {
    let result = parse_saved_variables(
        r#"Profiling2_Storage = {
                ["recordings"] = { -- foo
                }
              }"#,
    );

    match result {
        Ok(value) => assert_eq!(value, SavedVariables { recordings: vec![] }),
        Err(err) => {
            println!("{:?}", err);
            assert!(false);
        }
    };
}

#[test]
fn parse_empty_on_one_line() {
    let value = parse_saved_variables(r#"Profiling2_Storage = { ["recordings"] = { } }"#).unwrap();
    assert_eq!(value, SavedVariables { recordings: vec![] });
}

const FILE: &str = r#"
Profiling2_Storage = {
    ["recordings"] = {
        {
            ["encounter"] = {
                ["kind"] = "manual",
                ["startTime"] = 1681776154,
                ["endTime"] = 1681777809,
            },
            ["data"] = "BLOB",
        }, -- [1]
        {
            ["data"] = "haaa",
            ["encounter"] = {
                ["mapId"] = 1571,
                ["success"] = true,
                ["endTime"] = 1681777809,
                ["kind"] = "mythicplus",
                ["startTime"] = 1681776154,
                ["groupSize"] = 5,
            },
        }, -- [2]
        {
            ["encounter"] = {
                ["kind"] = "raid",
                ["startTime"] = 1,
                ["endTime"] = 2,
                ["encounterName"] = "Kazzara, the Hellforged",
                ["encounterId"] = 2688,
                ["success"] = false,
                ["difficultyId"] = 16,
                ["groupSize"] = 20,
                ["somethingNew"] = { 1, 2, 3 },
            },
            ["data"] = "not printable!",
        }, -- [3]
    },
    ["version"] = 3,
}
"#;

#[test]
fn a_file_with_recordings() {
    let file = FILE.replace("BLOB", BLOB);
    let value = parse_saved_variables(&file).unwrap();
    assert_eq!(value.recordings.len(), 3);
    assert_eq!(
        value.recordings[0].encounter,
        Encounter::Manual { startTime: 1681776154, endTime: 1681777809 }
    );
    assert_eq!(
        value.recordings[1].encounter,
        Encounter::Dungeon {
            startTime: 1681776154,
            endTime: 1681777809,
            success: true,
            mapId: 1571,
            groupSize: 5
        }
    );
    assert_eq!(
        value.recordings[2].encounter,
        Encounter::Raid {
            startTime: 1,
            endTime: 2,
            encounterName: "Kazzara, the Hellforged".to_string(),
            encounterId: 2688,
            success: false,
            difficultyId: 16,
            groupSize: 20
        }
    );
    match &value.recordings[0].data {
        RecordingData::Unparsed(Cow::Borrowed(raw)) => {
            assert_eq!(raw.len(), 460);
            assert_eq!(*raw, BLOB.as_bytes());
        }
        other => panic!("{:?}", other),
    }
    assert_eq!(value.recordings[1].data, RecordingData::Unparsed(key("haaa")));
}

fn expected_recording() -> ParsedRecording<'static> {
    let old = TrackerData::OldStyle {
        stats: Stats {
            mean: 0.05001f64.to_bits(),
            variance: None,
            skew: Some((-0.23456f64).to_bits()),
            samples: bits(&[1.0, 2.0, 3.0, 4.0]),
            quantiles: Some(vec![
                (b"0.5".to_vec(), 0.05f64.to_bits()),
                (b"0.75".to_vec(), 0.06f64.to_bits()),
            ]),
        },
        top5: bits(&[0.5, 0.25]),
        core: TrackerCore {
            calls: 10,
            commits: 7,
            official_time: Some(2.5f64.to_bits()),
            dependent: Some(true),
            total_time: 1.5f64.to_bits(),
        },
    };
    let new = TrackerData::NewStyle {
        sketch: SketchStats {
            outliers: bits(&[9.5]),
            bins: Some(bits(&[1.0, 0.0, 3.0])),
            count: 300,
            trivial_count: 5,
        },
        core: TrackerCore {
            calls: 1,
            commits: 1,
            official_time: None,
            dependent: None,
            total_time: 2.0f64.to_bits(),
        },
    };
    let delay = TrackerData::NewStyle {
        sketch: SketchStats { outliers: vec![], bins: None, count: 0, trivial_count: 0 },
        core: TrackerCore {
            calls: 0,
            commits: 0,
            official_time: None,
            dependent: None,
            total_time: 0.0f64.to_bits(),
        },
    };
    ParsedRecording {
        scripts: vec![
            (Cow::Owned(b"Addon/core.lua:12".to_vec()), old),
            (Cow::Owned(b"frame".to_vec()), new),
        ],
        externals: None,
        on_update_delay: delay,
        sketch_params: Some(SketchParams {
            alpha: 0.05f64.to_bits(),
            gamma: 1.1f64.to_bits(),
            bin_offset: -20,
            trivial_cutoff: 0.0005f64.to_bits(),
        }),
    }
}

#[test]
fn a_blob_decodes_to_its_recording() {
    let parsed = parse_compressed_recording(BLOB).unwrap();
    assert_eq!(parsed, expected_recording());
    assert_eq!(from_str(BLOB).unwrap(), expected_recording());
    assert_eq!(from_bytes(&STREAM).unwrap(), expected_recording());
    assert!(matches!(find(&parsed.scripts, "frame"), TrackerData::NewStyle { .. }));
}

#[test]
fn the_recording_owns_what_it_holds() {
    let parsed = {
        let blob = String::from(BLOB);
        parse_compressed_recording(&blob).unwrap()
    };
    for (name, _) in &parsed.scripts {
        assert!(matches!(name, Cow::Owned(_)));
    }
}

#[test]
fn a_blob_that_cannot_be_read() {
    match parse_compressed_recording("not printable!") {
        Err(SavedVariablesError::DeserializeError(DeserializationError::DecompressionError(
            DecompressionError::InvalidPrintByte(b' '),
        ))) => {}
        other => panic!("{:?}", other),
    }
    match parse_compressed_recording("haaa") {
        Err(SavedVariablesError::DeserializeError(DeserializationError::DecompressionError(
            DecompressionError::DeflateError(_),
        ))) => {}
        other => panic!("{:?}", other),
    }
}

#[test]
fn the_blob_of_a_recording_is_decoded_once() {
    let file = FILE.replace("BLOB", BLOB);
    let mut value = parse_saved_variables(&file).unwrap();
    let first = &mut value.recordings[0];
    assert!(parsed_data(first).is_none());
    parse_data(first).unwrap();
    assert_eq!(parsed_data(first), Some(&expected_recording()));
    assert_eq!(first.encounter, Encounter::Manual { startTime: 1681776154, endTime: 1681777809 });
    // a second request finds the decoded data and leaves it alone
    if let RecordingData::Parsed(p) = &mut first.data {
        p.scripts.pop();
    }
    parse_data(first).unwrap();
    assert_eq!(parsed_data(first).unwrap().scripts.len(), 1);
    // a blob that cannot be read stays as it is
    let second = &mut value.recordings[1];
    assert!(parse_data(second).is_err());
    assert_eq!(second.data, RecordingData::Unparsed(key("haaa")));
}

#[test]
fn a_text_that_is_no_file() {
    match parse_saved_variables("x = {") {
        Err(SavedVariablesError::ParseError(ParseError::ValueError { offset: 5 })) => {}
        other => panic!("{:?}", other),
    }
    match parse_saved_variables("x = 5") {
        Err(SavedVariablesError::ParseError(ParseError::BadType {
            name: "SavedVariables",
            expected: ValueKind::Named,
            actual: ValueKind::Int,
        })) => {}
        other => panic!("{:?}", other),
    }
    match parse_saved_variables("x = { a = 1 }") {
        Err(SavedVariablesError::ParseError(ParseError::MissingKey {
            name: "SavedVariables",
            key: "recordings",
        })) => {}
        other => panic!("{:?}", other),
    }
    match parse_saved_variables(
        "x = { recordings = { { encounter = { kind = 'manual', startTime = -1, endTime = 2 }, data = '' } } }",
    ) {
        Err(SavedVariablesError::SignCastError) => {}
        other => panic!("{:?}", other),
    }
}

#[test]
fn primitives() {
    assert_eq!(expect_bool(&Value::Bool(true)), Ok(true));
    assert_eq!(expect_int(&Value::Int(-3)), Ok(-3));
    assert_eq!(expect_unsigned(&Value::Int(3)), Ok(3));
    assert_eq!(expect_unsigned(&Value::Int(-3)), Err(ParseError::SignCast));
    assert_eq!(expect_float(&float(1.5)), Ok(1.5f64.to_bits()));
    assert_eq!(expect_float(&Value::Int(3)), Ok(3.0f64.to_bits()));
    assert_eq!(expect_float(&Value::Int(-7)), Ok((-7.0f64).to_bits()));
    assert_eq!(expect_float(&Value::Int(i64::MAX)), Ok(9223372036854775807.0f64.to_bits()));
    assert_eq!(&expect_text(&text("x")).unwrap()[..], b"x");
    assert_eq!(
        expect_bool(&Value::Int(1)),
        Err(ParseError::InvalidPrimitive { expected: ValueKind::Bool, actual: ValueKind::Int })
    );
    assert_eq!(
        expect_int(&float(1.0)),
        Err(ParseError::InvalidPrimitive { expected: ValueKind::Int, actual: ValueKind::Float })
    );
    assert_eq!(
        expect_unsigned(&text("1")),
        Err(ParseError::InvalidPrimitive { expected: ValueKind::Int, actual: ValueKind::String })
    );
    assert_eq!(
        expect_float(&Value::Nil),
        Err(ParseError::InvalidPrimitive { expected: ValueKind::Float, actual: ValueKind::Nil })
    );
    assert_eq!(
        expect_text(&Value::Table(Table::Empty)).err(),
        Some(ParseError::InvalidPrimitive {
            expected: ValueKind::String,
            actual: ValueKind::Array
        })
    );
}

fn core_fields<'a>() -> Vec<(&'a str, Value<'a>)> {
    vec![("calls", Value::Int(4)), ("commits", Value::Int(2)), ("total_time", float(0.5))]
}

#[test]
fn the_common_part_of_a_tracker() {
    let v = named(core_fields());
    let Value::Table(Table::Named(entries)) = &v else { panic!() };
    assert_eq!(
        tracker_core(entries),
        Ok(TrackerCore {
            calls: 4,
            commits: 2,
            official_time: None,
            dependent: None,
            total_time: 0.5f64.to_bits()
        })
    );
    let mut fields = core_fields();
    fields.push(("officialTime", Value::Nil));
    fields.push(("dependent", Value::Bool(false)));
    fields.push(("unknown", text("passed over")));
    let v = named(fields);
    let Value::Table(Table::Named(entries)) = &v else { panic!() };
    assert_eq!(
        tracker_core(entries),
        Ok(TrackerCore {
            calls: 4,
            commits: 2,
            official_time: None,
            dependent: Some(false),
            total_time: 0.5f64.to_bits()
        })
    );
    let v = named(vec![("calls", Value::Int(4)), ("total_time", float(0.5))]);
    let Value::Table(Table::Named(entries)) = &v else { panic!() };
    assert_eq!(
        tracker_core(entries),
        Err(ParseError::MissingKey { name: "TrackerCore", key: "commits" })
    );
    let v = named(vec![("calls", float(4.0)), ("commits", Value::Int(2))]);
    let Value::Table(Table::Named(entries)) = &v else { panic!() };
    assert_eq!(
        tracker_core(entries),
        Err(ParseError::BadType {
            name: "TrackerCore",
            expected: ValueKind::Int,
            actual: ValueKind::Float
        })
    );
}

#[test]
fn a_float_array_reads_as_an_array_of_floats() {
    let xs = [0.5, -1.25, 3.0];
    let packed = Value::Table(Table::FloatArray(bits(&xs)));
    let plain = Value::Table(Table::Array(xs.iter().map(|x| float(*x)).collect()));
    assert_eq!(float_seq(&packed, "Stats"), Ok(bits(&xs)));
    assert_eq!(float_seq(&packed, "Stats"), float_seq(&plain, "Stats"));
    assert_eq!(deserialize_bins(&packed), deserialize_bins(&plain));
    assert_eq!(stats(&packed), stats(&plain));
    assert_eq!(sketch_stats(&packed), sketch_stats(&plain));
    assert_eq!(tracker_data(&packed), tracker_data(&plain));
    assert_eq!(parsed_recording(&packed), parsed_recording(&plain));
    assert_eq!(recording(&packed), recording(&plain));
    assert_eq!(encounter(&packed), encounter(&plain));
    assert_eq!(saved_variables(&packed), saved_variables(&plain));
    for (a, b) in [(packed, plain)] {
        let with_packed = named(vec![("recordings", a)]);
        let with_plain = named(vec![("recordings", b)]);
        assert_eq!(saved_variables(&with_packed), saved_variables(&with_plain));
        assert_eq!(
            saved_variables(&with_packed),
            Err(ParseError::BadType {
                name: "Recording",
                expected: ValueKind::Named,
                actual: ValueKind::Float
            })
        );
    }
    let empty = Value::Table(Table::FloatArray(vec![]));
    assert_eq!(
        saved_variables(&named(vec![("recordings", empty)])),
        Ok(SavedVariables { recordings: vec![] })
    );
}

#[test]
fn sequences_of_floats() {
    assert_eq!(float_seq(&Value::Table(Table::Empty), "Stats"), Ok(vec![]));
    let mixed = Value::Table(Table::Array(vec![Value::Int(1), float(0.5)]));
    assert_eq!(float_seq(&mixed, "Stats"), Ok(bits(&[1.0, 0.5])));
    let bad = Value::Table(Table::Array(vec![Value::Int(1), text("x"), Value::Nil]));
    assert_eq!(
        float_seq(&bad, "Stats"),
        Err(ParseError::BadType {
            name: "Stats",
            expected: ValueKind::Float,
            actual: ValueKind::String
        })
    );
    assert_eq!(
        float_seq(&named(vec![]), "Stats"),
        Err(ParseError::BadType {
            name: "Stats",
            expected: ValueKind::Array,
            actual: ValueKind::Named
        })
    );
    let both = Value::Table(Table::MixedTable { array: vec![], named: vec![] });
    assert_eq!(float_seq(&both, "Stats"), Err(ParseError::MixedTable));
}

#[test]
fn maps_of_floats() {
    let v = named(vec![("0.5", float(0.25)), ("0.9", Value::Int(2)), ("0.5", float(0.75))]);
    let q = float_map(&v, "Stats").unwrap();
    assert_eq!(q, vec![(b"0.9".to_vec(), 2.0f64.to_bits()), (b"0.5".to_vec(), 0.75f64.to_bits())]);
    // an entry that does not count may hold anything
    let v = named(vec![("0.5", text("x")), ("0.5", float(0.75))]);
    assert_eq!(float_map(&v, "Stats"), Ok(vec![(b"0.5".to_vec(), 0.75f64.to_bits())]));
    let v = named(vec![("0.5", float(0.75)), ("0.9", text("x"))]);
    assert_eq!(
        float_map(&v, "Stats"),
        Err(ParseError::BadType {
            name: "Stats",
            expected: ValueKind::Float,
            actual: ValueKind::Named
        })
    );
}

#[test]
fn sparse_bins_become_a_dense_list() {
    let v = named(vec![("3", float(0.5)), ("0", Value::Int(2)), ("+1", float(-1.0))]);
    assert_eq!(deserialize_bins(&v), Ok(bits(&[2.0, -1.0, 0.0, 0.5])));
    let Value::Table(Table::Named(entries)) = &v else { panic!() };
    assert_eq!(sparse_bins(entries), Ok(bits(&[2.0, -1.0, 0.0, 0.5])));
    assert_eq!(deserialize_bins(&named(vec![])), Ok(vec![]));
    assert_eq!(deserialize_bins(&named(vec![("0", float(1.0))])), Ok(bits(&[1.0])));
    let plain = Value::Table(Table::Array(vec![float(1.0), Value::Int(2)]));
    assert_eq!(deserialize_bins(&plain), Ok(bits(&[1.0, 2.0])));
    let bad = ParseError::BadType {
        name: "SketchStats",
        expected: ValueKind::Float,
        actual: ValueKind::Named,
    };
    assert_eq!(deserialize_bins(&named(vec![("x", float(1.0))])), Err(bad));
    assert_eq!(deserialize_bins(&named(vec![("-1", float(1.0))])), Err(bad));
    assert_eq!(deserialize_bins(&named(vec![("1", text("x"))])), Err(bad));
    // two keys for one position
    assert_eq!(deserialize_bins(&named(vec![("1", float(1.0)), ("01", float(2.0))])), Err(bad));
}

#[test]
fn the_position_that_a_key_names() {
    assert_eq!(key_index(b"0"), Some(0));
    assert_eq!(key_index(b"17"), Some(17));
    assert_eq!(key_index(b"+17"), Some(17));
    assert_eq!(key_index(b"007"), Some(7));
    assert_eq!(key_index(b""), None);
    assert_eq!(key_index(b"-0"), None);
    assert_eq!(key_index(b"1x"), None);
    assert_eq!(key_index(b" 1"), None);
    assert_eq!(key_index(b"99999999999999999999"), None);
}

#[test]
fn a_tracker_is_new_style_where_it_can_be() {
    let sketch = named(vec![
        ("outliers", Value::Table(Table::Empty)),
        ("count", Value::Int(1)),
        ("trivial_count", Value::Int(0)),
    ]);
    let old_stats = named(vec![("mean", float(1.0)), ("samples", Value::Table(Table::Empty))]);
    let mut fields = core_fields();
    fields.push(("sketch", sketch.clone()));
    fields.push(("stats", old_stats.clone()));
    fields.push(("top5", Value::Table(Table::Empty)));
    assert!(matches!(tracker_data(&named(fields)), Ok(TrackerData::NewStyle { .. })));
    let mut fields = core_fields();
    fields.push(("sketch", text("broken")));
    fields.push(("stats", old_stats.clone()));
    fields.push(("top5", Value::Table(Table::Empty)));
    assert!(matches!(tracker_data(&named(fields)), Ok(TrackerData::OldStyle { .. })));
    let mut fields = core_fields();
    fields.push(("sketch", text("broken")));
    assert_eq!(
        tracker_data(&named(fields)),
        Err(ParseError::MissingKey { name: "TrackerData", key: "stats" })
    );
    assert_eq!(
        tracker_data(&Value::Int(1)),
        Err(ParseError::BadType {
            name: "TrackerData",
            expected: ValueKind::Named,
            actual: ValueKind::Int
        })
    );
}

#[test]
fn a_map_of_trackers() {
    let sketch = named(vec![
        ("outliers", Value::Table(Table::Empty)),
        ("count", Value::Int(1)),
        ("trivial_count", Value::Int(0)),
    ]);
    let mut fields = core_fields();
    fields.push(("sketch", sketch));
    let tracker = named(fields);
    let v = named(vec![("a", Value::Nil), ("b", tracker.clone()), ("a", tracker.clone())]);
    let map: Vec<(Cow<'static, [u8]>, TrackerData)> = tracker_map(&v, "ParsedRecording").unwrap();
    assert_eq!(map.len(), 2);
    assert_eq!(find(&map, "a"), find(&map, "b"));
    let v = named(vec![("a", tracker.clone()), ("b", Value::Nil)]);
    let map: Result<Vec<(Cow<'static, [u8]>, TrackerData)>, ParseError> =
        tracker_map(&v, "ParsedRecording");
    assert_eq!(
        map,
        Err(ParseError::BadType {
            name: "ParsedRecording",
            expected: ValueKind::Named,
            actual: ValueKind::Named
        })
    );
}

#[test]
fn encounters() {
    let v = named(vec![("kind", text("solo")), ("startTime", Value::Int(1))]);
    assert_eq!(
        encounter(&v),
        Err(ParseError::BadType {
            name: "Encounter",
            expected: ValueKind::String,
            actual: ValueKind::String
        })
    );
    let v = named(vec![("startTime", Value::Int(1))]);
    assert_eq!(encounter(&v), Err(ParseError::MissingKey { name: "Encounter", key: "kind" }));
    let v = named(vec![("kind", text("manual")), ("startTime", Value::Int(1))]);
    assert_eq!(encounter(&v), Err(ParseError::MissingKey { name: "Encounter", key: "endTime" }));
    let v = named(vec![
        ("kind", text("manual")),
        ("startTime", Value::Int(1)),
        ("endTime", Value::Int(-2)),
    ]);
    assert_eq!(encounter(&v), Err(ParseError::SignCast));
    let v = named(vec![
        ("kind", Value::Int(1)),
        ("startTime", Value::Int(1)),
        ("endTime", Value::Int(2)),
    ]);
    assert_eq!(
        encounter(&v),
        Err(ParseError::BadType {
            name: "Encounter",
            expected: ValueKind::String,
            actual: ValueKind::Int
        })
    );
    let both = Value::Table(Table::MixedTable { array: vec![], named: vec![] });
    assert_eq!(encounter(&both), Err(ParseError::MixedTable));
}

#[test]
fn the_data_of_a_recording() {
    let enc = named(vec![
        ("kind", text("manual")),
        ("startTime", Value::Int(1)),
        ("endTime", Value::Int(2)),
    ]);
    let v = named(vec![("encounter", enc.clone()), ("data", text("abcd"))]);
    assert_eq!(
        recording(&v),
        Ok(Recording {
            encounter: Encounter::Manual { startTime: 1, endTime: 2 },
            data: RecordingData::Unparsed(key("abcd")),
        })
    );
    let decoded = deserialize(&STREAM).unwrap();
    let v = named(vec![("encounter", enc.clone()), ("data", decoded)]);
    assert_eq!(
        recording(&v),
        Ok(Recording {
            encounter: Encounter::Manual { startTime: 1, endTime: 2 },
            data: RecordingData::Parsed(expected_recording()),
        })
    );
    let v = named(vec![("encounter", enc.clone())]);
    assert_eq!(recording(&v), Err(ParseError::MissingKey { name: "Recording", key: "data" }));
    let v = named(vec![("encounter", enc), ("data", Value::Int(1))]);
    assert_eq!(
        recording(&v),
        Err(ParseError::BadType {
            name: "ParsedRecording",
            expected: ValueKind::Named,
            actual: ValueKind::Int
        })
    );
}

#[test]
fn the_parameters_of_a_sketch() {
    let v = named(vec![
        ("alpha", float(0.05)),
        ("gamma", Value::Int(2)),
        ("bin_offset", Value::Int(-20)),
        ("trivial_cutoff", float(0.0005)),
    ]);
    assert_eq!(
        sketch_params(&v),
        Ok(SketchParams {
            alpha: 0.05f64.to_bits(),
            gamma: 2.0f64.to_bits(),
            bin_offset: -20,
            trivial_cutoff: 0.0005f64.to_bits()
        })
    );
    let v = named(vec![
        ("alpha", float(0.05)),
        ("gamma", Value::Int(2)),
        ("bin_offset", float(-20.0)),
        ("trivial_cutoff", float(0.0005)),
    ]);
    assert_eq!(
        sketch_params(&v),
        Err(ParseError::BadType {
            name: "SketchParams",
            expected: ValueKind::Int,
            actual: ValueKind::Float
        })
    );
}

#[test]
fn a_value_that_does_not_fit_is_reported_by_the_decoder() {
    match from_bytes(&[1, 0x0b]) {
        Err(DeserializationError::SavedVariablesError(ParseError::BadType {
            name: "ParsedRecording",
            expected: ValueKind::Named,
            actual: ValueKind::Int,
        })) => {}
        other => panic!("{:?}", other),
    }
}

fn write_floats(xs: &[u64]) -> Value<'static> {
    Value::Table(Table::FloatArray(xs.to_vec()))
}

fn write_core(core: &TrackerCore, out: &mut Vec<(&'static str, Value<'static>)>) {
    out.push(("calls", Value::Int(core.calls as i64)));
    out.push(("commits", Value::Int(core.commits as i64)));
    if let Some(bits) = core.official_time {
        out.push(("officialTime", Value::Float(bits)));
    }
    if let Some(b) = core.dependent {
        out.push(("dependent", Value::Bool(b)));
    }
    out.push(("total_time", Value::Float(core.total_time)));
}

fn write_tracker(t: &TrackerData) -> Value<'static> {
    let mut out = Vec::new();
    match t {
        TrackerData::OldStyle { stats, top5, core } => {
            let mut fields = vec![
                ("mean", Value::Float(stats.mean)),
                ("samples", write_floats(&stats.samples)),
            ];
            if let Some(bits) = stats.variance {
                fields.push(("variance", Value::Float(bits)));
            }
            if let Some(bits) = stats.skew {
                fields.push(("skew", Value::Float(bits)));
            }
            if let Some(q) = &stats.quantiles {
                let entries = q
                    .iter()
                    .map(|(k, v)| (Cow::Owned(k.clone()), Value::Float(*v)))
                    .collect();
                fields.push(("quantiles", Value::Table(Table::Named(entries))));
            }
            out.push(("stats", named(fields)));
            out.push(("top5", write_floats(top5)));
            write_core(core, &mut out);
        }
        TrackerData::NewStyle { sketch, core } => {
            let mut fields = vec![
                ("outliers", write_floats(&sketch.outliers)),
                ("count", Value::Int(sketch.count as i64)),
                ("trivial_count", Value::Int(sketch.trivial_count as i64)),
            ];
            if let Some(bins) = &sketch.bins {
                fields.push(("bins", write_floats(bins)));
            }
            out.push(("sketch", named(fields)));
            write_core(core, &mut out);
        }
    }
    named(out)
}

fn write_trackers(t: &[(Cow<'static, [u8]>, TrackerData)]) -> Value<'static> {
    Value::Table(Table::Named(t.iter().map(|(k, v)| (k.clone(), write_tracker(v))).collect()))
}

fn write_parsed(p: &ParsedRecording<'static>) -> Value<'static> {
    let mut out = vec![
        ("scripts", write_trackers(&p.scripts)),
        ("onUpdateDelay", write_tracker(&p.on_update_delay)),
        ("somethingNew", Value::Int(1)),
    ];
    if let Some(e) = &p.externals {
        out.push(("externals", write_trackers(e)));
    }
    if let Some(params) = &p.sketch_params {
        out.push((
            "sketch_params",
            named(vec![
                ("alpha", Value::Float(params.alpha)),
                ("gamma", Value::Float(params.gamma)),
                ("bin_offset", Value::Int(params.bin_offset)),
                ("trivial_cutoff", Value::Float(params.trivial_cutoff)),
            ]),
        ));
    }
    named(out)
}

#[test]
fn reading_back_what_was_written() {
    let mut wanted = expected_recording();
    assert_eq!(parsed_recording(&write_parsed(&wanted)), Ok(wanted.clone()));
    wanted.externals = Some(wanted.scripts.clone());
    wanted.sketch_params = None;
    assert_eq!(parsed_recording(&write_parsed(&wanted)), Ok(wanted.clone()));
    let file = named(vec![(
        "recordings",
        Value::Table(Table::Array(vec![
            named(vec![
                (
                    "encounter",
                    named(vec![
                        ("kind", text("raid")),
                        ("startTime", Value::Int(1)),
                        ("endTime", Value::Int(2)),
                        ("encounterName", text("Kazzara")),
                        ("encounterId", Value::Int(2688)),
                        ("success", Value::Bool(true)),
                        ("difficultyId", Value::Int(16)),
                        ("groupSize", Value::Int(20)),
                    ]),
                ),
                ("data", write_parsed(&wanted)),
            ]),
            named(vec![
                (
                    "encounter",
                    named(vec![
                        ("kind", text("manual")),
                        ("startTime", Value::Int(3)),
                        ("endTime", Value::Int(4)),
                    ]),
                ),
                ("data", text("haaa")),
            ]),
        ])),
    )]);
    assert_eq!(
        saved_variables(&file),
        Ok(SavedVariables {
            recordings: vec![
                Recording {
                    encounter: Encounter::Raid {
                        startTime: 1,
                        endTime: 2,
                        encounterName: "Kazzara".to_string(),
                        encounterId: 2688,
                        success: true,
                        difficultyId: 16,
                        groupSize: 20
                    },
                    data: RecordingData::Parsed(wanted),
                },
                Recording {
                    encounter: Encounter::Manual { startTime: 3, endTime: 4 },
                    data: RecordingData::Unparsed(key("haaa")),
                },
            ]
        })
    );
}

#[test]
fn a_decoded_table_reads_as_statistics() {
    let data = [
        0x1, 0x46, 0x42, 0x73, 0x6b, 0x65, 0x77, 0x48, 0xbf, 0xce, 0x6, 0xf, 0xe4, 0x79, 0x91,
        0xbc, 0x72, 0x73, 0x61, 0x6d, 0x70, 0x6c, 0x65, 0x73, 0x4a, 0x3, 0x5, 0x7, 0x9, 0x42,
        0x6d, 0x65, 0x61, 0x6e, 0x48, 0x3f, 0xa9, 0x9a, 0xe9, 0x24, 0xf2, 0x27, 0xd0, 0x92,
        0x71, 0x75, 0x61, 0x6e, 0x74, 0x69, 0x6c, 0x65, 0x73, 0x46, 0x32, 0x30, 0x2e, 0x35,
        0x50, 0x4, 0x30, 0x2e, 0x30, 0x35, 0x42, 0x30, 0x2e, 0x39, 0x35, 0x50, 0x4, 0x30, 0x2e,
        0x30, 0x38, 0x42, 0x30, 0x2e, 0x39, 0x39, 0x50, 0x3, 0x30, 0x2e, 0x31, 0x42, 0x30,
        0x2e, 0x37, 0x35, 0x50, 0x4, 0x30, 0x2e, 0x30, 0x36,
    ];
    let value = deserialize(&data).unwrap();
    let read = stats(&value).unwrap();
    assert_eq!(f64::from_bits(read.mean), 0.05001);
    assert_eq!(read.skew.map(f64::from_bits), Some(-0.23456));
    assert_eq!(read.variance, None);
    assert_eq!(read.samples, bits(&[1.0, 2.0, 3.0, 4.0]));
    let mut quantiles: Vec<(String, f64)> = read
        .quantiles
        .unwrap()
        .into_iter()
        .map(|(k, v)| (String::from_utf8(k).unwrap(), f64::from_bits(v)))
        .collect();
    quantiles.sort_by(|a, b| a.0.cmp(&b.0));
    assert_eq!(
        quantiles,
        vec![
            ("0.5".to_string(), 0.05),
            ("0.75".to_string(), 0.06),
            ("0.95".to_string(), 0.08),
            ("0.99".to_string(), 0.1)
        ]
    );
}

#[test]
fn decoding_on_request_leaves_the_recording_alone() {
    let file = FILE.replace("BLOB", BLOB);
    let mut value = parse_saved_variables(&file).unwrap();
    assert_eq!(value.length(), 3);
    assert!(value.get(3).is_none());
    let first = value.get(0).unwrap();
    assert_eq!(test_parse_data(first).unwrap(), expected_recording());
    assert!(parsed_data(first).is_none());
    assert_eq!(*first.encounter(), Encounter::Manual { startTime: 1681776154, endTime: 1681777809 });
    assert!(matches!(
        test_parse_data(value.get(1).unwrap()),
        Err(TestParseError::Failed(SavedVariablesError::DeserializeError(_)))
    ));
    parse_data(&mut value.recordings[0]).unwrap();
    assert!(matches!(
        test_parse_data(value.get(0).unwrap()),
        Err(TestParseError::FoundParsed)
    ));
}
