//! The records of the network solver's input: what makes them valid, how they
//! are written to the store and read back, and the lines they come in.
use vstd::prelude::*;

use crate::decimal::{decimal, decimal_text};
use crate::epoch::{epoch_value, parse_epoch};
use crate::json::{canonical, canonical_json};
use crate::model::{Phase, UNIT};
use crate::network::{
    timely, Pick, PickSource, PickStatus, Segment, Station, VelocityModel,
};
use crate::text::{
    blank, concat2, concat3, lines, lines_of, same, trim_end, trim_right, trimmed, views,
};

verus! {

/// A clock correction as it is handed in.
#[derive(Debug, Clone)]
pub struct ClockCorrection {
    pub version: String,
    pub station_id: String,
    pub start_time: String,
    pub end_time: Option<String>,
    pub bias_seconds: i64,
    pub rate_s_per_s: i64,
}

/// A pick as it is handed in.
#[derive(Debug, Clone)]
pub struct PickEntry {
    pub pick_id: String,
    pub station_id: String,
    pub phase: Phase,
    pub time: String,
    pub sigma_seconds: i64,
    pub confidence: i64,
    pub source: PickSource,
    pub model_id: String,
}

/// A record of the input.
#[derive(Debug, Clone)]
pub enum NetworkRecord {
    Station(Station),
    VelocityModel(VelocityModel),
    ClockCorrection(ClockCorrection),
    Pick(PickEntry),
}

/// The word for the kind of a record.
pub open spec fn record_word(r: NetworkRecord) -> Seq<char> {
    match r {
        NetworkRecord::Station(_) => "station"@,
        NetworkRecord::VelocityModel(_) => "velocity_model"@,
        NetworkRecord::ClockCorrection(_) => "clock_correction"@,
        NetworkRecord::Pick(_) => "pick"@,
    }
}

/// The word for the kind of a record.
pub fn record_type(r: &NetworkRecord) -> (t: &'static str)
    ensures
        t@ == record_word(*r),
{
    match r {
        NetworkRecord::Station(_) => "station",
        NetworkRecord::VelocityModel(_) => "velocity_model",
        NetworkRecord::ClockCorrection(_) => "clock_correction",
        NetworkRecord::Pick(_) => "pick",
    }
}

/// Whether a character may be in the id of a station.
pub open spec fn id_char(c: char) -> bool {
    'a' <= c <= 'z' || 'A' <= c <= 'Z' || '0' <= c <= '9' || c == '_' || c == '-' || c == '.'
}

/// Whether a character may be in the id of a station.
pub fn valid_id_char(c: char) -> (r: bool)
    ensures
        r == id_char(c),
{
    ('a' <= c && c <= 'z') || ('A' <= c && c <= 'Z') || ('0' <= c && c <= '9') || c == '_' || c
        == '-' || c == '.'
}

/// Whether a text is made of the characters of station ids.
pub open spec fn valid_id(s: Seq<char>) -> bool {
    forall|i: int| 0 <= i < s.len() ==> id_char(#[trigger] s[i])
}

/// Whether a text is made of the characters of station ids.
fn is_valid_id(s: &str) -> (r: bool)
    ensures
        r == valid_id(s@),
{
    let v = crate::text::chars_of(s);
    let mut i: usize = 0;
    while i < v.len()
        invariant
            i <= v@.len(),
            v@ == s@,
            forall|j: int| 0 <= j < i ==> id_char(#[trigger] s@[j]),
        decreases v@.len() - i,
    {
        if !valid_id_char(v[i]) {
            assert(!id_char(s@[i as int]));
            return false;
        }
        i += 1;
    }
    true
}

/// What is wrong with a pick, if anything.
pub open spec fn entry_error(p: PickEntry) -> Option<Seq<char>> {
    match epoch_value(p.time@) {
        Err(e) => Some(e),
        Ok(_) => if !(0 <= p.confidence <= UNIT) || p.sigma_seconds <= 0 {
            Some("invalid uncertainty/confidence for "@ + p.pick_id@)
        } else {
            None
        },
    }
}

/// What is wrong with a clock correction, if anything.
pub open spec fn correction_error(c: ClockCorrection) -> Option<Seq<char>> {
    match epoch_value(c.start_time@) {
        Err(e) => Some(e),
        Ok(start) => match c.end_time {
            None => None,
            Some(end_time) => match epoch_value(end_time@) {
                Err(e) => Some(e),
                Ok(end) => if end <= start {
                    Some("clock segment end must be after start"@)
                } else {
                    None
                },
            },
        },
    }
}

/// What is wrong with a velocity model, if anything.
pub open spec fn velocity_error(m: VelocityModel) -> Option<Seq<char>> {
    if m.vs_kms <= 0 || m.vp_kms <= m.vs_kms {
        Some("require 0 < Vs < Vp"@)
    } else if m.x_min_km >= m.x_max_km || m.y_min_km >= m.y_max_km {
        Some("velocity model bounds are inverted"@)
    } else {
        None
    }
}

/// What is wrong with a record, if anything.
pub open spec fn record_error(r: NetworkRecord) -> Option<Seq<char>> {
    match r {
        NetworkRecord::Pick(p) => entry_error(p),
        NetworkRecord::ClockCorrection(c) => correction_error(c),
        NetworkRecord::Station(s) => if valid_id(s.station_id@) {
            None
        } else {
            Some("station id contains unsupported characters"@)
        },
        NetworkRecord::VelocityModel(m) => velocity_error(m),
    }
}

/// Checks a pick.
fn validate_entry(p: &PickEntry) -> (r: Result<(), String>)
    ensures
        match r {
            Ok(()) => entry_error(*p) is None,
            Err(m) => entry_error(*p) == Some(m@),
        },
{
    match parse_epoch(p.time.as_str()) {
        Err(m) => {
            return Err(m);
        },
        Ok(_) => {},
    }
    if p.confidence < 0 || p.confidence > 1_000_000_000 || p.sigma_seconds <= 0 {
        return Err(concat2("invalid uncertainty/confidence for ", p.pick_id.as_str()));
    }
    Ok(())
}

/// Checks a clock correction.
fn validate_correction(c: &ClockCorrection) -> (r: Result<(), String>)
    ensures
        match r {
            Ok(()) => correction_error(*c) is None,
            Err(m) => correction_error(*c) == Some(m@),
        },
{
    let start: i128 = match parse_epoch(c.start_time.as_str()) {
        Err(m) => {
            return Err(m);
        },
        Ok(t) => t,
    };
    match &c.end_time {
        None => Ok(()),
        Some(text) => match parse_epoch(text.as_str()) {
            Err(m) => Err(m),
            Ok(end) => if end <= start {
                Err("clock segment end must be after start".to_owned())
            } else {
                Ok(())
            },
        },
    }
}

/// Checks a record.
pub fn validate_record(record: &NetworkRecord) -> (r: Result<(), String>)
    ensures
        match r {
            Ok(()) => record_error(*record) is None,
            Err(m) => record_error(*record) == Some(m@),
        },
{
    match record {
        NetworkRecord::Pick(p) => validate_entry(p),
        NetworkRecord::ClockCorrection(c) => validate_correction(c),
        NetworkRecord::Station(s) => if is_valid_id(s.station_id.as_str()) {
            Ok(())
        } else {
            Err("station id contains unsupported characters".to_owned())
        },
        NetworkRecord::VelocityModel(m) => {
            if m.vs_kms <= 0 || m.vp_kms <= m.vs_kms {
                return Err("require 0 < Vs < Vp".to_owned());
            }
            if m.x_min_km >= m.x_max_km || m.y_min_km >= m.y_max_km {
                return Err("velocity model bounds are inverted".to_owned());
            }
            Ok(())
        },
    }
}

/// A line of the input, by its number from one on.
#[derive(Debug, Clone)]
pub struct NumberedLine {
    pub number: usize,
    pub text: String,
}

/// The lines of a text that are not blank, with their numbers.
pub open spec fn numbered(all: Seq<Seq<char>>) -> Seq<(int, Seq<char>)>
    decreases all.len(),
{
    if all.len() == 0 {
        Seq::empty()
    } else {
        let rest = numbered(all.drop_last());
        if trimmed(all.last()).len() == 0 {
            rest
        } else {
            rest.push((all.len() as int, all.last()))
        }
    }
}

/// The contents of some numbered lines.
pub open spec fn line_views(v: Seq<NumberedLine>) -> Seq<(int, Seq<char>)> {
    v.map_values(|l: NumberedLine| (l.number as int, l.text@))
}

/// The lines of a text that are not blank, with their numbers.
pub fn record_lines(content: &str) -> (r: Vec<NumberedLine>)
    ensures
        line_views(r@) == numbered(lines_of(content@)),
{
    let all = lines(content);
    let ghost texts = views(all@);
    let mut r: Vec<NumberedLine> = Vec::new();
    let n: usize = all.len();
    let mut i: usize = 0;
    assert(texts.take(0) =~= Seq::<Seq<char>>::empty());
    assert(line_views(r@) =~= Seq::<(int, Seq<char>)>::empty());
    while i < n
        invariant
            n == all@.len(),
            i <= n,
            texts == views(all@),
            line_views(r@) == numbered(texts.take(i as int)),
        decreases n - i,
    {
        let ghost before = r@;
        assert(texts.take(i + 1).drop_last() =~= texts.take(i as int));
        assert(texts.take(i + 1).last() == all@[i as int]@);
        if !blank(all[i].as_str()) {
            r.push(NumberedLine { number: i + 1, text: all[i].clone() });
            assert(line_views(r@) =~= line_views(before).push((i + 1, all@[i as int]@)));
        }
        i += 1;
    }
    assert(texts.take(i as int) =~= texts);
    r
}

/// What came of reading a line as a record: the record, or what is wrong with
/// the line.
#[derive(Debug)]
pub struct ReadLine {
    pub number: usize,
    pub record: Result<NetworkRecord, String>,
}

/// What stops the reading of a line, if anything.
pub open spec fn line_error(l: ReadLine) -> Option<Seq<char>> {
    match l.record {
        Err(m) => Some("invalid JSON on line "@ + decimal(l.number as nat) + ": "@ + m@),
        Ok(r) => record_error(r),
    }
}

/// What stops the reading of some lines: what stops the first that is stopped.
pub open spec fn lines_error(v: Seq<ReadLine>) -> Option<Seq<char>>
    decreases v.len(),
{
    if v.len() == 0 {
        None
    } else {
        match lines_error(v.drop_last()) {
            Some(m) => Some(m),
            None => line_error(v.last()),
        }
    }
}

/// What stops the reading of a line, if anything.
fn check_line(l: &ReadLine) -> (r: Option<String>)
    ensures
        match r {
            Some(m) => line_error(*l) == Some(m@),
            None => line_error(*l) is None,
        },
{
    match &l.record {
        Err(m) => {
            let start = concat2("invalid JSON on line ", decimal_text(l.number as u64).as_str());
            Some(concat3(start.as_str(), ": ", m.as_str()))
        },
        Ok(record) => match validate_record(record) {
            Err(m) => Some(m),
            Ok(()) => None,
        },
    }
}

/// The records of lines that were read, each of them valid, or what stops the
/// first line that is stopped.
fn collect_records(parsed: Vec<ReadLine>) -> (r: Result<Vec<NetworkRecord>, String>)
    ensures
        match r {
            Ok(v) => lines_error(parsed@) is None && v@.len() == parsed@.len() && forall|i: int|
                0 <= i < v@.len() ==> parsed@[i].record == Ok::<NetworkRecord, String>(
                    #[trigger] v@[i],
                ),
            Err(m) => lines_error(parsed@) == Some(m@),
        },
{
    let ghost all = parsed@;
    let mut rest = parsed;
    let mut r: Vec<NetworkRecord> = Vec::new();
    let ghost mut done: int = 0;
    assert(all.skip(0) =~= all);
    assert(all.take(0) =~= Seq::<ReadLine>::empty());
    while rest.len() > 0
        invariant
            0 <= done <= all.len(),
            all == parsed@,
            rest@ == all.skip(done),
            r@.len() == done,
            lines_error(all.take(done)) is None,
            forall|i: int|
                0 <= i < done ==> all[i].record == Ok::<NetworkRecord, String>(#[trigger] r@[i]),
        decreases rest@.len(),
    {
        let line = rest.remove(0);
        proof {
            assert(line == all[done]);
            assert(all.take(done + 1).drop_last() =~= all.take(done));
            assert(all.take(done + 1).last() == line);
            assert(rest@ =~= all.skip(done + 1));
        }
        match check_line(&line) {
            Some(m) => {
                proof {
                    first_error(all, done + 1);
                }
                return Err(m);
            },
            None => {},
        }
        match line.record {
            Ok(record) => {
                r.push(record);
            },
            Err(_) => {},
        }
        proof {
            done = done + 1;
        }
    }
    assert(all.take(done) =~= all);
    Ok(r)
}

/// What came of reading the lines of a text that are not blank.
pub open spec fn read_lines(
    content: Seq<char>,
    read: Seq<Result<NetworkRecord, String>>,
) -> Seq<ReadLine> {
    Seq::new(
        read.len(),
        |i: int| ReadLine { number: numbered(lines_of(content))[i].0 as usize, record: read[i] },
    )
}

/// The records of a text, given what came of reading each of its lines that
/// are not blank: each record valid, or what stops the first line that is
/// stopped.
pub fn parse_records(content: &str, read: Vec<Result<NetworkRecord, String>>) -> (r: Result<
    Vec<NetworkRecord>,
    String,
>)
    requires
        read@.len() == numbered(lines_of(content@)).len(),
    ensures
        match r {
            Ok(v) => lines_error(read_lines(content@, read@)) is None && v@.len() == read@.len()
                && forall|i: int|
                0 <= i < v@.len() ==> read@[i] == Ok::<NetworkRecord, String>(#[trigger] v@[i]),
            Err(m) => lines_error(read_lines(content@, read@)) == Some(m@),
        },
{
    let all = record_lines(content);
    let ghost places = numbered(lines_of(content@));
    let ghost whole = read@;
    assert(all@.len() == line_views(all@).len());
    let n: usize = read.len();
    let mut rest = read;
    let mut v: Vec<ReadLine> = Vec::new();
    let mut i: usize = 0;
    assert(whole.skip(0) =~= whole);
    while rest.len() > 0
        invariant
            n == whole.len(),
            i <= n,
            whole.len() == places.len(),
            all@.len() == places.len(),
            line_views(all@) == places,
            rest@ == whole.skip(i as int),
            v@.len() == i,
            forall|k: int|
                0 <= k < i ==> (#[trigger] v@[k]).number == places[k].0 as usize && v@[k].record
                    == whole[k],
        decreases rest@.len(),
    {
        let record = rest.remove(0);
        assert(record == whole[i as int]);
        assert(rest@ =~= whole.skip(i + 1));
        assert(line_views(all@)[i as int].0 == all@[i as int].number);
        v.push(ReadLine { number: all[i].number, record });
        i += 1;
    }
    assert(v@ =~= read_lines(content@, whole));
    collect_records(v)
}

/// What stops the first lines stops all.
proof fn first_error(v: Seq<ReadLine>, n: int)
    requires
        0 <= n <= v.len(),
        lines_error(v.take(n)) is Some,
    ensures
        lines_error(v) == lines_error(v.take(n)),
    decreases v.len() - n,
{
    if n < v.len() {
        assert(v.take(n + 1).drop_last() =~= v.take(n));
        first_error(v, n + 1);
    } else {
        assert(v.take(n) =~= v);
    }
}

/// Records that were collected are all valid.
pub proof fn collected_records_are_valid(parsed: Seq<ReadLine>, i: int)
    requires
        lines_error(parsed) is None,
        0 <= i < parsed.len(),
    ensures
        match parsed[i].record {
            Ok(r) => record_error(r) is None,
            Err(_) => false,
        },
    decreases parsed.len(),
{
    if i < parsed.len() - 1 {
        collected_records_are_valid(parsed.drop_last(), i);
    }
}

/// A line of the input in its canonical form, with a line break: as JSON is
/// written, or without the space at its end where it is no JSON.
pub open spec fn canonical_line(line: Seq<char>) -> Seq<char> {
    match canonical(line) {
        Some(t) => t.push('\n'),
        None => trim_end(line).push('\n'),
    }
}

/// Some lines in their canonical form, without the blank ones.
pub open spec fn normal(all: Seq<Seq<char>>) -> Seq<char>
    decreases all.len(),
{
    if all.len() == 0 {
        Seq::empty()
    } else {
        let rest = normal(all.drop_last());
        if trimmed(all.last()).len() == 0 {
            rest
        } else {
            rest + canonical_line(all.last())
        }
    }
}

/// The lines of a text in their canonical form, without the blank ones.
pub fn normalize_lines(content: &str) -> (r: String)
    ensures
        r@ == normal(lines_of(content@)),
{
    let all = lines(content);
    let ghost texts = views(all@);
    let mut r = String::new();
    let mut i: usize = 0;
    assert(texts.take(0) =~= Seq::<Seq<char>>::empty());
    assert(r@ =~= Seq::<char>::empty());
    while i < all.len()
        invariant
            i <= all@.len(),
            texts == views(all@),
            r@ == normal(texts.take(i as int)),
        decreases all@.len() - i,
    {
        let line = all[i].as_str();
        assert(texts.take(i + 1).drop_last() =~= texts.take(i as int));
        assert(texts.take(i + 1).last() == line@);
        if !blank(line) {
            let ghost before = r@;
            match canonical_json(line) {
                Some(t) => {
                    r = concat2(r.as_str(), t.as_str());
                    r.push('\n');
                    assert(r@ =~= before + t@.push('\n'));
                },
                None => {
                    let t = trim_right(line);
                    r = concat2(r.as_str(), t.as_str());
                    r.push('\n');
                    assert(r@ =~= before + t@.push('\n'));
                },
            }
        }
        i += 1;
    }
    assert(texts.take(i as int) =~= texts);
    r
}

/// Blank lines do not count: with or without one at the end, the input is the
/// same.
pub proof fn blank_lines_do_not_count(all: Seq<Seq<char>>, line: Seq<char>)
    requires
        trimmed(line).len() == 0,
    ensures
        normal(all.push(line)) == normal(all),
{
    assert(all.push(line).drop_last() =~= all);
}

/// The word for a phase.
pub open spec fn phase_word(p: Phase) -> Seq<char> {
    match p {
        Phase::P => "P"@,
        Phase::S => "S"@,
    }
}

/// The word for a phase.
pub fn phase_text(p: Phase) -> (r: &'static str)
    ensures
        r@ == phase_word(p),
{
    match p {
        Phase::P => "P",
        Phase::S => "S",
    }
}

/// The phase that a word in the store stands for.
pub open spec fn stored_phase(s: Seq<char>) -> Phase {
    if s == "S"@ {
        Phase::S
    } else {
        Phase::P
    }
}

/// The phase that a word in the store stands for.
pub fn read_phase(s: &str) -> (r: Phase)
    ensures
        r == stored_phase(s@),
{
    if same(s, "S") {
        Phase::S
    } else {
        Phase::P
    }
}

/// The word for the source of a pick.
pub open spec fn source_word(s: PickSource) -> Seq<char> {
    match s {
        PickSource::Auto => "auto"@,
        PickSource::Manual => "manual"@,
    }
}

/// The word for the source of a pick.
pub fn source_text(s: PickSource) -> (r: &'static str)
    ensures
        r@ == source_word(s),
{
    match s {
        PickSource::Auto => "auto",
        PickSource::Manual => "manual",
    }
}

/// The source that a word in the store stands for.
pub open spec fn stored_source(s: Seq<char>) -> PickSource {
    if s == "manual"@ {
        PickSource::Manual
    } else {
        PickSource::Auto
    }
}

/// The source that a word in the store stands for.
pub fn read_source(s: &str) -> (r: PickSource)
    ensures
        r == stored_source(s@),
{
    if same(s, "manual") {
        PickSource::Manual
    } else {
        PickSource::Auto
    }
}

/// The word for the status of a pick.
pub open spec fn pick_status_word(s: PickStatus) -> Seq<char> {
    match s {
        PickStatus::Active => "active"@,
        PickStatus::Locked => "locked"@,
        PickStatus::Noise => "noise"@,
    }
}

/// The status that a word in the store stands for.
pub open spec fn stored_status(s: Seq<char>) -> PickStatus {
    if s == "locked"@ {
        PickStatus::Locked
    } else if s == "noise"@ {
        PickStatus::Noise
    } else {
        PickStatus::Active
    }
}

/// The status that a word in the store stands for.
pub fn read_status(s: &str) -> (r: PickStatus)
    ensures
        r == stored_status(s@),
{
    if same(s, "locked") {
        PickStatus::Locked
    } else if same(s, "noise") {
        PickStatus::Noise
    } else {
        PickStatus::Active
    }
}

/// What is written to the store for a phase, a source and a status reads back
/// as the same.
pub proof fn stored_words_read_back(p: Phase, s: PickSource, t: PickStatus)
    ensures
        stored_phase(phase_word(p)) == p,
        stored_source(source_word(s)) == s,
        stored_status(pick_status_word(t)) == t,
{
    reveal_strlit("P");
    reveal_strlit("S");
    reveal_strlit("auto");
    reveal_strlit("manual");
    reveal_strlit("active");
    reveal_strlit("locked");
    reveal_strlit("noise");
    assert("P"@[0] != "S"@[0]);
    assert("auto"@[0] != "manual"@[0]);
    assert("active"@[0] != "locked"@[0]);
    assert("active"@[0] != "noise"@[0]);
    assert("noise"@[0] != "locked"@[0]);
}

/// A pick as it is in the store.
#[derive(Debug, Clone)]
pub struct StoredPick {
    pub pick_id: String,
    pub station_id: String,
    pub phase: Phase,
    pub time: String,
    pub sigma_seconds: i64,
    pub confidence: i64,
    pub source: PickSource,
    pub model_id: String,
    pub status: PickStatus,
    pub locked_event: Option<String>,
}

/// A stored pick as the solver takes it.
pub open spec fn solver_pick(s: StoredPick, p: Pick) -> bool {
    &&& p.pick_id@ == s.pick_id@
    &&& p.station_id@ == s.station_id@
    &&& p.phase == s.phase
    &&& p.time@ == s.time@
    &&& epoch_value(s.time@) == Ok::<int, Seq<char>>(p.epoch as int)
    &&& p.sigma_seconds == s.sigma_seconds
    &&& p.confidence == s.confidence
    &&& p.source == s.source
    &&& p.model_id@ == s.model_id@
    &&& p.status == s.status
}

/// A stored pick as the solver takes it, or what is wrong with its time.
pub fn take_pick(s: &StoredPick) -> (r: Result<Pick, String>)
    ensures
        match r {
            Ok(p) => solver_pick(*s, p) && timely(p.epoch as int),
            Err(m) => epoch_value(s.time@) == Err::<int, Seq<char>>(m@),
        },
{
    match parse_epoch(s.time.as_str()) {
        Err(m) => Err(m),
        Ok(epoch) => Ok(
            Pick {
                pick_id: s.pick_id.clone(),
                station_id: s.station_id.clone(),
                phase: s.phase,
                time: s.time.clone(),
                epoch,
                sigma_seconds: s.sigma_seconds,
                confidence: s.confidence,
                source: s.source,
                model_id: s.model_id.clone(),
                status: s.status,
            },
        ),
    }
}

/// A clock correction as the solver takes it.
pub open spec fn solver_segment(c: ClockCorrection, s: Segment) -> bool {
    &&& s.station_id@ == c.station_id@
    &&& epoch_value(c.start_time@) == Ok::<int, Seq<char>>(s.start as int)
    &&& match c.end_time {
        None => s.end is None,
        Some(text) => match s.end {
            Some(end) => epoch_value(text@) == Ok::<int, Seq<char>>(end as int),
            None => false,
        },
    }
    &&& s.bias_seconds == c.bias_seconds
}

/// A clock correction as the solver takes it, or what is wrong with the first
/// of its times that something is wrong with.
pub fn take_segment(c: &ClockCorrection) -> (r: Result<Segment, String>)
    ensures
        match r {
            Ok(s) => solver_segment(*c, s),
            Err(m) => epoch_value(c.start_time@) == Err::<int, Seq<char>>(m@) || (epoch_value(
                c.start_time@,
            ) is Ok && c.end_time is Some && epoch_value(c.end_time->0@) == Err::<int, Seq<char>>(
                m@,
            )),
        },
{
    match parse_epoch(c.start_time.as_str()) {
        Err(m) => Err(m),
        Ok(start) => {
            let end: Option<i128> = match &c.end_time {
                None => None,
                Some(text) => match parse_epoch(text.as_str()) {
                    Err(m) => {
                        return Err(m);
                    },
                    Ok(t) => Some(t),
                },
            };
            Ok(
                Segment {
                    station_id: c.station_id.clone(),
                    start,
                    end,
                    bias_seconds: c.bias_seconds,
                },
            )
        },
    }
}

/// What is said of a record that contradicts one in the store.
pub open spec fn conflict_text(r: NetworkRecord) -> Seq<char> {
    match r {
        NetworkRecord::Station(s) => "conflicting immutable station "@ + s.station_id@,
        NetworkRecord::VelocityModel(m) => "conflicting immutable velocity model "@ + m.model_id@,
        NetworkRecord::ClockCorrection(c) => "conflicting immutable clock segment for "@
            + c.station_id@ + " version "@ + c.version@,
        NetworkRecord::Pick(p) => "conflicting pick "@ + p.pick_id@,
    }
}

/// Whether a record is in the store after it was to be written: it was new, or
/// the store holds the same. What it contradicts is not replaced.
pub fn settle_insert(record: &NetworkRecord, changed: usize, equal: usize) -> (r: Result<(), String>)
    ensures
        match r {
            Ok(()) => changed > 0 || equal > 0,
            Err(m) => changed == 0 && equal == 0 && m@ == conflict_text(*record),
        },
{
    if changed > 0 || equal > 0 {
        return Ok(());
    }
    Err(
        match record {
            NetworkRecord::Station(s) => concat2(
                "conflicting immutable station ",
                s.station_id.as_str(),
            ),
            NetworkRecord::VelocityModel(m) => concat2(
                "conflicting immutable velocity model ",
                m.model_id.as_str(),
            ),
            NetworkRecord::ClockCorrection(c) => {
                let start = concat2(
                    "conflicting immutable clock segment for ",
                    c.station_id.as_str(),
                );
                concat3(start.as_str(), " version ", c.version.as_str())
            },
            NetworkRecord::Pick(p) => concat2("conflicting pick ", p.pick_id.as_str()),
        },
    )
}

} // verus!
