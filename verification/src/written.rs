//! What it means for a value tree to hold a record, and the law that
//! reading such a tree gives the record back.
//!
//! A tree holds a record where each field of the record stands under its
//! name, in the form in which a field of its type is written: an unsigned
//! integer as an integer, a float as a float, an absent optional field not
//! at all, a sequence of floats as a float array or as an array of floats,
//! a map as a keyed table. The tree may hold more entries than the record
//! has fields.

use crate::savedvariables::ParseError;
use crate::schema::{spec_fields, spec_float};
use crate::types::{
    array_of_floats, float_of, lemma_float_array_reads_as_array, spec_bins, spec_encounter,
    spec_float_seq, spec_parsed_recording, spec_quantiles, spec_recording, spec_recording_data,
    spec_recordings, spec_saved_variables, spec_sketch_params, spec_sketch_stats, spec_stats,
    spec_tracker_core, spec_tracker_data, spec_tracker_map, tracker_of, EncounterView,
    ParsedRecordingView, RecordingDataView, RecordingView, SavedVariablesView, SketchParams,
    SketchStatsView, StatsView, TrackerCore, TrackerDataView,
};
use crate::value::{TableView, ValueView};
use vstd::prelude::*;
use vstd::string::StringSliceAdditionalSpecFns;
use vstd::utf8::valid_utf8;

verus! {

/// The value `v` stands under `key`.
pub open spec fn holds(m: Map<Seq<u8>, ValueView>, key: &'static str, v: ValueView) -> bool {
    m.contains_key(key.spec_bytes()) && m[key.spec_bytes()] == v
}

/// Nothing stands under `key`.
pub open spec fn lacks(m: Map<Seq<u8>, ValueView>, key: &'static str) -> bool {
    !m.contains_key(key.spec_bytes())
}

/// An unsigned integer stands under `key` as an integer, which it must fit.
pub open spec fn holds_unsigned(m: Map<Seq<u8>, ValueView>, key: &'static str, x: u64) -> bool {
    x <= i64::MAX && holds(m, key, ValueView::Int(x as i64))
}

/// An optional float stands under `key` as a float, or not at all.
pub open spec fn holds_opt_float(m: Map<Seq<u8>, ValueView>, key: &'static str, x: Option<u64>)
    -> bool {
    match x {
        Some(bits) => holds(m, key, ValueView::Float(bits)),
        None => lacks(m, key),
    }
}

/// An optional boolean stands under `key` as a boolean, or not at all.
pub open spec fn holds_opt_bool(m: Map<Seq<u8>, ValueView>, key: &'static str, x: Option<bool>)
    -> bool {
    match x {
        Some(b) => holds(m, key, ValueView::Bool(b)),
        None => lacks(m, key),
    }
}

/// A sequence of floats stands under `key`, as a float array or as an array
/// of floats.
pub open spec fn holds_floats(m: Map<Seq<u8>, ValueView>, key: &'static str, xs: Seq<u64>) -> bool {
    holds(m, key, ValueView::Table(TableView::FloatArray(xs))) || holds(
        m,
        key,
        array_of_floats(xs),
    )
}

/// The table holds the common part of a tracker.
pub open spec fn core_written(m: Map<Seq<u8>, ValueView>, c: TrackerCore) -> bool {
    &&& holds_unsigned(m, "calls", c.calls)
    &&& holds_unsigned(m, "commits", c.commits)
    &&& holds_opt_float(m, "officialTime", c.official_time)
    &&& holds_opt_bool(m, "dependent", c.dependent)
    &&& holds(m, "total_time", ValueView::Float(c.total_time))
}

/// The tree holds the parameters of a sketch.
pub open spec fn params_written(v: ValueView, p: SketchParams) -> bool {
    match v {
        ValueView::Table(TableView::Named(m)) => {
            &&& holds(m, "alpha", ValueView::Float(p.alpha))
            &&& holds(m, "gamma", ValueView::Float(p.gamma))
            &&& holds(m, "bin_offset", ValueView::Int(p.bin_offset))
            &&& holds(m, "trivial_cutoff", ValueView::Float(p.trivial_cutoff))
        },
        _ => false,
    }
}

/// A map of floats is written as the keyed table of its floats.
pub open spec fn quantiles_written(m: Map<Seq<u8>, ValueView>, q: Option<Map<Seq<u8>, u64>>)
    -> bool {
    match q {
        Some(map) => holds(
            m,
            "quantiles",
            ValueView::Table(TableView::Named(map.map_values(|x: u64| ValueView::Float(x)))),
        ),
        None => lacks(m, "quantiles"),
    }
}

/// The tree holds the statistics.
pub open spec fn stats_written(v: ValueView, s: StatsView) -> bool {
    match v {
        ValueView::Table(TableView::Named(m)) => {
            &&& holds(m, "mean", ValueView::Float(s.mean))
            &&& holds_opt_float(m, "variance", s.variance)
            &&& holds_opt_float(m, "skew", s.skew)
            &&& holds_floats(m, "samples", s.samples)
            &&& quantiles_written(m, s.quantiles)
        },
        _ => false,
    }
}

/// The table holds the optional bins, as a sequence of floats.
pub open spec fn bins_written(m: Map<Seq<u8>, ValueView>, bins: Option<Seq<u64>>) -> bool {
    match bins {
        Some(xs) => holds_floats(m, "bins", xs),
        None => lacks(m, "bins"),
    }
}

/// The tree holds the sketch.
pub open spec fn sketch_written(v: ValueView, s: SketchStatsView) -> bool {
    match v {
        ValueView::Table(TableView::Named(m)) => {
            &&& holds_floats(m, "outliers", s.outliers)
            &&& bins_written(m, s.bins)
            &&& holds_unsigned(m, "count", s.count)
            &&& holds_unsigned(m, "trivial_count", s.trivial_count)
        },
        _ => false,
    }
}

/// A tracker is written with its common part beside its sketch, or beside
/// its statistics and its top five; an old-style tracker has no sketch.
pub open spec fn tracker_written(v: ValueView, t: TrackerDataView) -> bool {
    match v {
        ValueView::Table(TableView::Named(m)) => match t {
            TrackerDataView::NewStyle { sketch, core } => {
                &&& m.contains_key("sketch".spec_bytes())
                &&& sketch_written(m["sketch".spec_bytes()], sketch)
                &&& core_written(m, core)
            },
            TrackerDataView::OldStyle { stats, top5, core } => {
                &&& lacks(m, "sketch")
                &&& m.contains_key("stats".spec_bytes())
                &&& stats_written(m["stats".spec_bytes()], stats)
                &&& holds_floats(m, "top5", top5)
                &&& core_written(m, core)
            },
        },
        _ => false,
    }
}

/// A map of trackers is written as a keyed table with the same keys, each
/// tracker under its key.
pub open spec fn trackers_written(v: ValueView, t: Map<Seq<u8>, TrackerDataView>) -> bool {
    match v {
        ValueView::Table(TableView::Named(m)) => {
            &&& forall|k: Seq<u8>| m.contains_key(k) == t.contains_key(k)
            &&& forall|k: Seq<u8>| m.contains_key(k) ==> #[trigger] tracker_written(m[k], t[k])
        },
        _ => false,
    }
}

/// The table holds the optional trackers of other addons.
pub open spec fn externals_written(
    m: Map<Seq<u8>, ValueView>,
    e: Option<Map<Seq<u8>, TrackerDataView>>,
) -> bool {
    match e {
        Some(t) => m.contains_key("externals".spec_bytes()) && trackers_written(
            m["externals".spec_bytes()],
            t,
        ),
        None => lacks(m, "externals"),
    }
}

/// The table holds the optional parameters of the sketches.
pub open spec fn optional_params_written(m: Map<Seq<u8>, ValueView>, p: Option<SketchParams>)
    -> bool {
    match p {
        Some(params) => m.contains_key("sketch_params".spec_bytes()) && params_written(
            m["sketch_params".spec_bytes()],
            params,
        ),
        None => lacks(m, "sketch_params"),
    }
}

/// The tree holds the decoded recording.
pub open spec fn parsed_written(v: ValueView, p: ParsedRecordingView) -> bool {
    match v {
        ValueView::Table(TableView::Named(m)) => {
            &&& m.contains_key("scripts".spec_bytes())
            &&& trackers_written(m["scripts".spec_bytes()], p.scripts)
            &&& externals_written(m, p.externals)
            &&& m.contains_key("onUpdateDelay".spec_bytes())
            &&& tracker_written(m["onUpdateDelay".spec_bytes()], p.on_update_delay)
            &&& optional_params_written(m, p.sketch_params)
        },
        _ => false,
    }
}

/// Reading the common part of a tracker from a table that holds it gives it
/// back.
pub proof fn lemma_core_read_back(m: Map<Seq<u8>, ValueView>, c: TrackerCore)
    requires
        core_written(m, c),
    ensures
        spec_tracker_core(m) == Ok::<TrackerCore, ParseError>(c),
{
}

/// Reading the parameters of a sketch from a tree that holds them gives
/// them back.
pub proof fn lemma_params_read_back(v: ValueView, p: SketchParams)
    requires
        params_written(v, p),
    ensures
        spec_sketch_params(v) == Ok::<SketchParams, ParseError>(p),
{
}

proof fn lemma_floats_read_back(m: Map<Seq<u8>, ValueView>, key: &'static str, xs: Seq<u64>,
    name: &'static str)
    requires
        holds_floats(m, key, xs),
    ensures
        m.contains_key(key.spec_bytes()),
        spec_float_seq(m[key.spec_bytes()], name) == Ok::<Seq<u64>, ParseError>(xs),
        spec_bins(m[key.spec_bytes()]) == Ok::<Seq<u64>, ParseError>(xs),
{
    lemma_float_array_reads_as_array(xs, name);
}

proof fn lemma_quantiles_read_back(m: Map<Seq<u8>, ValueView>, q: Option<Map<Seq<u8>, u64>>)
    requires
        quantiles_written(m, q),
    ensures
        spec_quantiles(m) == Ok::<Option<Map<Seq<u8>, u64>>, ParseError>(q),
{
    match q {
        Some(map) => {
            let written = map.map_values(|x: u64| ValueView::Float(x));
            assert forall|k: Seq<u8>| written.contains_key(k) implies (#[trigger] spec_float(
                written[k],
            )) is Ok by {}
            assert(written.map_values(|x: ValueView| float_of(x)) =~= map);
        },
        None => {},
    }
}

/// Reading the statistics from a tree that holds them gives them back.
pub proof fn lemma_stats_read_back(v: ValueView, s: StatsView)
    requires
        stats_written(v, s),
    ensures
        spec_stats(v) == Ok::<StatsView, ParseError>(s),
{
    let m = spec_fields(v, "Stats")->Ok_0;
    lemma_floats_read_back(m, "samples", s.samples, "Stats");
    lemma_quantiles_read_back(m, s.quantiles);
}

/// Reading a sketch from a tree that holds it gives it back.
pub proof fn lemma_sketch_read_back(v: ValueView, s: SketchStatsView)
    requires
        sketch_written(v, s),
    ensures
        spec_sketch_stats(v) == Ok::<SketchStatsView, ParseError>(s),
{
    let m = spec_fields(v, "SketchStats")->Ok_0;
    lemma_floats_read_back(m, "outliers", s.outliers, "SketchStats");
    match s.bins {
        Some(xs) => {
            lemma_floats_read_back(m, "bins", xs, "SketchStats");
        },
        None => {},
    }
}

/// Reading a tracker from a tree that holds it gives it back.
pub proof fn lemma_tracker_read_back(v: ValueView, t: TrackerDataView)
    requires
        tracker_written(v, t),
    ensures
        spec_tracker_data(v) == Ok::<TrackerDataView, ParseError>(t),
{
    let m = spec_fields(v, "TrackerData")->Ok_0;
    match t {
        TrackerDataView::NewStyle { sketch, core } => {
            lemma_sketch_read_back(m["sketch".spec_bytes()], sketch);
            lemma_core_read_back(m, core);
        },
        TrackerDataView::OldStyle { stats, top5, core } => {
            lemma_stats_read_back(m["stats".spec_bytes()], stats);
            lemma_floats_read_back(m, "top5", top5, "TrackerData");
            lemma_core_read_back(m, core);
        },
    }
}

/// Reading a map of trackers from a tree that holds it gives it back.
pub proof fn lemma_trackers_read_back(
    v: ValueView,
    t: Map<Seq<u8>, TrackerDataView>,
    name: &'static str,
)
    requires
        trackers_written(v, t),
    ensures
        spec_tracker_map(v, name) == Ok::<Map<Seq<u8>, TrackerDataView>, ParseError>(t),
{
    let m = spec_fields(v, name)->Ok_0;
    assert forall|k: Seq<u8>| m.contains_key(k) implies (#[trigger] spec_tracker_data(
        m[k],
    )) is Ok && tracker_of(m[k]) == t[k] by {
        assert(tracker_written(m[k], t[k]));
        lemma_tracker_read_back(m[k], t[k]);
    }
    assert(m.map_values(|x: ValueView| tracker_of(x)) =~= t);
}

/// Reading a decoded recording from a tree that holds it gives it back.
pub proof fn lemma_parsed_read_back(v: ValueView, p: ParsedRecordingView)
    requires
        parsed_written(v, p),
    ensures
        spec_parsed_recording(v) == Ok::<ParsedRecordingView, ParseError>(p),
{
    let m = spec_fields(v, "ParsedRecording")->Ok_0;
    lemma_trackers_read_back(m["scripts".spec_bytes()], p.scripts, "ParsedRecording");
    match p.externals {
        Some(t) => {
            lemma_trackers_read_back(m["externals".spec_bytes()], t, "ParsedRecording");
        },
        None => {},
    }
    lemma_tracker_read_back(m["onUpdateDelay".spec_bytes()], p.on_update_delay);
    match p.sketch_params {
        Some(params) => {
            lemma_params_read_back(m["sketch_params".spec_bytes()], params);
        },
        None => {},
    }
}

/// The three kinds of encounter have three different names.
pub proof fn lemma_kinds_differ()
    ensures
        "manual".spec_bytes() != "raid".spec_bytes(),
        "manual".spec_bytes() != "mythicplus".spec_bytes(),
        "raid".spec_bytes() != "mythicplus".spec_bytes(),
{
    reveal_strlit("manual");
    reveal_strlit("raid");
    reveal_strlit("mythicplus");
    let a: &str = "manual";
    let b: &str = "raid";
    let c: &str = "mythicplus";
    assert(vstd::string::is_ascii(a));
    assert(vstd::string::is_ascii(b));
    assert(vstd::string::is_ascii(c));
    vstd::string::is_ascii_spec_bytes(a);
    vstd::string::is_ascii_spec_bytes(b);
    vstd::string::is_ascii_spec_bytes(c);
    assert(a.spec_bytes().len() == 6);
    assert(b.spec_bytes().len() == 4);
    assert(c.spec_bytes().len() == 10);
}

/// The names of the three fields of a recording made by hand differ.
proof fn lemma_manual_keys_differ()
    ensures
        "kind".spec_bytes() != "startTime".spec_bytes(),
        "kind".spec_bytes() != "endTime".spec_bytes(),
        "startTime".spec_bytes() != "endTime".spec_bytes(),
{
    reveal_strlit("kind");
    reveal_strlit("startTime");
    reveal_strlit("endTime");
    let a: &str = "kind";
    let b: &str = "startTime";
    let c: &str = "endTime";
    assert(vstd::string::is_ascii(a));
    assert(vstd::string::is_ascii(b));
    assert(vstd::string::is_ascii(c));
    vstd::string::is_ascii_spec_bytes(a);
    vstd::string::is_ascii_spec_bytes(b);
    vstd::string::is_ascii_spec_bytes(c);
    assert(a.spec_bytes().len() == 4);
    assert(b.spec_bytes().len() == 9);
    assert(c.spec_bytes().len() == 7);
}

/// There are trees that hold a record: every recording made by hand whose
/// times fit a signed integer is held by the table of its three fields, and
/// is read back from it.
pub proof fn lemma_manual_can_be_written(start: u64, end: u64) -> (v: ValueView)
    requires
        start <= i64::MAX,
        end <= i64::MAX,
    ensures
        encounter_written(v, EncounterView::Manual { startTime: start, endTime: end }),
        spec_encounter(v) == Ok::<EncounterView, ParseError>(
            EncounterView::Manual { startTime: start, endTime: end },
        ),
{
    lemma_manual_keys_differ();
    let m = Map::<Seq<u8>, ValueView>::empty().insert(
        "kind".spec_bytes(),
        ValueView::String("manual".spec_bytes()),
    ).insert("startTime".spec_bytes(), ValueView::Int(start as i64)).insert(
        "endTime".spec_bytes(),
        ValueView::Int(end as i64),
    );
    let v = ValueView::Table(TableView::Named(m));
    lemma_encounter_read_back(v, EncounterView::Manual { startTime: start, endTime: end });
    v
}

/// An encounter is written with the name of its kind under `kind` and its
/// fields beside it.
pub open spec fn encounter_written(v: ValueView, e: EncounterView) -> bool {
    match v {
        ValueView::Table(TableView::Named(m)) => match e {
            EncounterView::Manual { startTime, endTime } => {
                &&& holds(m, "kind", ValueView::String("manual".spec_bytes()))
                &&& holds_unsigned(m, "startTime", startTime)
                &&& holds_unsigned(m, "endTime", endTime)
            },
            EncounterView::Raid {
                startTime,
                endTime,
                encounterName,
                encounterId,
                success,
                difficultyId,
                groupSize,
            } => {
                &&& holds(m, "kind", ValueView::String("raid".spec_bytes()))
                &&& holds_unsigned(m, "startTime", startTime)
                &&& holds_unsigned(m, "endTime", endTime)
                &&& valid_utf8(encounterName)
                &&& holds(m, "encounterName", ValueView::String(encounterName))
                &&& holds_unsigned(m, "encounterId", encounterId)
                &&& holds(m, "success", ValueView::Bool(success))
                &&& holds_unsigned(m, "difficultyId", difficultyId)
                &&& holds_unsigned(m, "groupSize", groupSize)
            },
            EncounterView::Dungeon { startTime, endTime, success, mapId, groupSize } => {
                &&& holds(m, "kind", ValueView::String("mythicplus".spec_bytes()))
                &&& holds_unsigned(m, "startTime", startTime)
                &&& holds_unsigned(m, "endTime", endTime)
                &&& holds(m, "success", ValueView::Bool(success))
                &&& holds_unsigned(m, "mapId", mapId)
                &&& holds_unsigned(m, "groupSize", groupSize)
            },
        },
        _ => false,
    }
}

/// The data of a recording is written as the blob, or as the decoded
/// recording.
pub open spec fn data_written(v: ValueView, d: RecordingDataView) -> bool {
    match d {
        RecordingDataView::Unparsed(raw) => v == ValueView::String(raw),
        RecordingDataView::Parsed(p) => parsed_written(v, p),
    }
}

/// The tree holds the recording.
pub open spec fn recording_written(v: ValueView, r: RecordingView) -> bool {
    match v {
        ValueView::Table(TableView::Named(m)) => {
            &&& m.contains_key("encounter".spec_bytes())
            &&& encounter_written(m["encounter".spec_bytes()], r.encounter)
            &&& m.contains_key("data".spec_bytes())
            &&& data_written(m["data".spec_bytes()], r.data)
        },
        _ => false,
    }
}

/// A list of recordings is written item by item.
pub open spec fn recordings_written(a: Seq<ValueView>, r: Seq<RecordingView>) -> bool {
    &&& a.len() == r.len()
    &&& forall|i: int| 0 <= i < a.len() ==> #[trigger] recording_written(a[i], r[i])
}

/// A file is written with the array of its recordings under `recordings`;
/// a file without recordings may hold the empty table there.
pub open spec fn saved_written(v: ValueView, s: SavedVariablesView) -> bool {
    match v {
        ValueView::Table(TableView::Named(m)) => {
            &&& m.contains_key("recordings".spec_bytes())
            &&& match m["recordings".spec_bytes()] {
                ValueView::Table(TableView::Array(a)) => recordings_written(a, s.recordings),
                ValueView::Table(TableView::Empty) => s.recordings.len() == 0,
                _ => false,
            }
        },
        _ => false,
    }
}

/// Reading an encounter from a tree that holds it gives it back.
pub proof fn lemma_encounter_read_back(v: ValueView, e: EncounterView)
    requires
        encounter_written(v, e),
    ensures
        spec_encounter(v) == Ok::<EncounterView, ParseError>(e),
{
    lemma_kinds_differ();
}

/// Reading the data of a recording from a tree that holds it gives it back.
pub proof fn lemma_data_read_back(v: ValueView, d: RecordingDataView)
    requires
        data_written(v, d),
    ensures
        spec_recording_data(v) == Ok::<RecordingDataView, ParseError>(d),
{
    match d {
        RecordingDataView::Unparsed(_) => {},
        RecordingDataView::Parsed(p) => {
            lemma_parsed_read_back(v, p);
        },
    }
}

/// Reading a recording from a tree that holds it gives it back.
pub proof fn lemma_recording_read_back(v: ValueView, r: RecordingView)
    requires
        recording_written(v, r),
    ensures
        spec_recording(v) == Ok::<RecordingView, ParseError>(r),
{
    let m = spec_fields(v, "Recording")->Ok_0;
    lemma_encounter_read_back(m["encounter".spec_bytes()], r.encounter);
    lemma_data_read_back(m["data".spec_bytes()], r.data);
}

/// Reading a list of recordings from the items that hold them gives it
/// back.
pub proof fn lemma_recordings_read_back(a: Seq<ValueView>, r: Seq<RecordingView>)
    requires
        recordings_written(a, r),
    ensures
        spec_recordings(a) == Ok::<Seq<RecordingView>, ParseError>(r),
    decreases a.len(),
{
    if a.len() == 0 {
        assert(r =~= Seq::<RecordingView>::empty());
    } else {
        assert forall|i: int| 0 <= i < a.drop_last().len() implies #[trigger] recording_written(
            a.drop_last()[i],
            r.drop_last()[i],
        ) by {
            assert(recording_written(a[i], r[i]));
        }
        lemma_recordings_read_back(a.drop_last(), r.drop_last());
        assert(recording_written(a[a.len() - 1], r[a.len() - 1]));
        lemma_recording_read_back(a.last(), r.last());
        assert(r.drop_last().push(r.last()) =~= r);
    }
}

/// Reading back what was written: a tree that holds all that a file holds
/// is read as just that. The same holds of every record inside it, by the
/// lemmas above.
pub proof fn lemma_saved_read_back(v: ValueView, s: SavedVariablesView)
    requires
        saved_written(v, s),
    ensures
        spec_saved_variables(v) == Ok::<SavedVariablesView, ParseError>(s),
{
    let m = spec_fields(v, "SavedVariables")->Ok_0;
    match m["recordings".spec_bytes()] {
        ValueView::Table(TableView::Array(a)) => {
            lemma_recordings_read_back(a, s.recordings);
        },
        _ => {
            assert(s.recordings =~= Seq::<RecordingView>::empty());
        },
    }
}

} // verus!
