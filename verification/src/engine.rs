//! The aggregation engine: the three-level rollup from raw score entries
//! through events and competitions up to seasons. Each level gathers its
//! inputs, invokes the resolved calculator script once per participant (so a
//! failing script isolates to its own participant), validates the returned
//! structure, and assembles the tie-aware ranked result lists.
//!
//! Two points of the script-facing contract deserve emphasis. First, each
//! invocation passes a units array holding a single participant: a script
//! that scores participants relative to one another must carry what it needs
//! through its configuration, since it never sees the whole field at once.
//! Second, inside a `scores` array a disqualified entry appears as the
//! explicit placeholder `false` rather than nil — a Lua sequence cannot hold
//! nil — so a script can still see that an attempt was made and disqualified.

use crate::decimal::{digit_seq, u128_to_string, Decimal};
use crate::errors::CalcError;
use crate::model::{Competition, CompetitionEvent, DataSet, Event, Group, ScoreCalculator, Score, ScoreType, Season, SeasonCompetition, Team};
use crate::ranking::{assign_ranks, ranked_order, spec_order, spec_rank};
use crate::registry::resolve_calculator;
use crate::runtime::CalculatorScriptContext;
use crate::value::{datums_view, lemma_dv_open, merge_config, spec_get, Datum, Vt};
use vstd::prelude::*;

verus! {

/// One participant's outcome at one aggregation level: its rank value, or
/// none when it is unranked.
#[derive(Debug, PartialEq)]
pub enum ScoreResult {
    Group { group_participation_id: u128, group_name: String, rank: Option<Decimal> },
    Team { team_id: u128, group_name: String, team_name: String, rank: Option<Decimal> },
}

/// The ranked outcome of one competition event.
#[derive(Debug, PartialEq)]
pub struct EventResult {
    pub event_name: String,
    pub results: Vec<ScoreResult>,
}

/// The ranked outcome of one season-competition, with its events' outcomes.
#[derive(Debug, PartialEq)]
pub struct CompetitionResult {
    pub competition_name: String,
    pub results: Vec<ScoreResult>,
    pub events: Vec<EventResult>,
}

/// The ranked outcome of one season, with its competitions' outcomes.
#[derive(Debug, PartialEq)]
pub struct SeasonResult {
    pub season_name: String,
    pub results: Vec<ScoreResult>,
    pub competitions: Vec<CompetitionResult>,
}

/// `e` with its rank replaced.
pub open spec fn spec_with_rank(e: ScoreResult, rank: Option<Decimal>) -> ScoreResult {
    match e {
        ScoreResult::Group { group_participation_id, group_name, rank: _ } => ScoreResult::Group {
            group_participation_id,
            group_name,
            rank,
        },
        ScoreResult::Team { team_id, group_name, team_name, rank: _ } => ScoreResult::Team {
            team_id,
            group_name,
            team_name,
            rank,
        },
    }
}

/// A rank number as the decimal it is reported as.
pub open spec fn spec_rank_decimal(r: Option<u64>) -> Option<Decimal> {
    match r {
        Some(v) => Some(Decimal::raw(v as int, 0)),
        None => None,
    }
}

/// The fully ranked, fully ordered result list: every entry with its dense
/// tie-aware rank, presented ranks ascending with ties in input order and
/// unranked entries last.
pub open spec fn spec_ranked_results(entries: Seq<ScoreResult>, scores: Seq<Option<Decimal>>)
    -> Seq<ScoreResult> {
    let ranks = Seq::new(scores.len(), |i: int| spec_rank(scores, i));
    let ord = spec_order(ranks);
    Seq::new(ord.len(), |p: int| spec_with_rank(entries[ord[p]], spec_rank_decimal(ranks[ord[p]])))
}



// ---------------------------------------------------------------------------
// Which record a lookup by identity yields, and when a calculation's
// references are all intact. The finders take the first stored match.
// ---------------------------------------------------------------------------

/// The first stored competition event with the given identity.
pub open spec fn spec_find_ce(evs: Seq<CompetitionEvent>, id: u128) -> Option<CompetitionEvent>
    decreases evs.len(),
{
    if evs.len() == 0 {
        None
    } else if evs[0].id == Some(id) {
        Some(evs[0])
    } else {
        spec_find_ce(evs.subrange(1, evs.len() as int), id)
    }
}

/// The first stored event with the given identity.
pub open spec fn spec_find_event(evs: Seq<Event>, id: u128) -> Option<Event>
    decreases evs.len(),
{
    if evs.len() == 0 {
        None
    } else if evs[0].id == Some(id) {
        Some(evs[0])
    } else {
        spec_find_event(evs.subrange(1, evs.len() as int), id)
    }
}

/// The first stored season-competition with the given identity.
pub open spec fn spec_find_sc(scs: Seq<SeasonCompetition>, id: u128) -> Option<SeasonCompetition>
    decreases scs.len(),
{
    if scs.len() == 0 {
        None
    } else if scs[0].id == Some(id) {
        Some(scs[0])
    } else {
        spec_find_sc(scs.subrange(1, scs.len() as int), id)
    }
}

/// The first stored competition with the given identity.
pub open spec fn spec_find_competition(cs: Seq<Competition>, id: u128) -> Option<Competition>
    decreases cs.len(),
{
    if cs.len() == 0 {
        None
    } else if cs[0].id == Some(id) {
        Some(cs[0])
    } else {
        spec_find_competition(cs.subrange(1, cs.len() as int), id)
    }
}

/// The first stored season with the given identity.
pub open spec fn spec_find_season(ss: Seq<Season>, id: u128) -> Option<Season>
    decreases ss.len(),
{
    if ss.len() == 0 {
        None
    } else if ss[0].id == Some(id) {
        Some(ss[0])
    } else {
        spec_find_season(ss.subrange(1, ss.len() as int), id)
    }
}

/// The first stored group with the given identity.
pub open spec fn spec_find_group(gs: Seq<Group>, id: u128) -> Option<Group>
    decreases gs.len(),
{
    if gs.len() == 0 {
        None
    } else if gs[0].id == Some(id) {
        Some(gs[0])
    } else {
        spec_find_group(gs.subrange(1, gs.len() as int), id)
    }
}

/// A calculator reference is in order: absent, or naming a stored
/// calculator.
pub open spec fn spec_calculator_ok(data: DataSet, reference: Option<u128>) -> bool {
    match reference {
        None => true,
        Some(id) => exists|i: int|
            0 <= i < data.score_calculators@.len() && (#[trigger] data.score_calculators@[i]).id
                == Some(id),
    }
}

/// Every enabled group participation of the season names a stored group.
pub open spec fn spec_groups_ok(data: DataSet, season_id: u128) -> bool {
    forall|i: int|
        0 <= i < data.group_participations@.len() ==> {
            let gp = #[trigger] data.group_participations@[i];
            (gp.enabled && gp.season_id == season_id && gp.id is Some) ==> spec_find_group(
                data.groups@,
                gp.group_id,
            ) is Some
        }
}

/// The season has no enabled group participation: nothing to score.
pub open spec fn spec_no_participants(data: DataSet, season_id: u128) -> bool {
    forall|i: int|
        0 <= i < data.group_participations@.len() ==> !((
        #[trigger] data.group_participations@[i]).enabled
            && data.group_participations@[i].season_id == season_id
            && data.group_participations@[i].id is Some)
}

/// Everything an event-level calculation looks up exists: the event record,
/// the calculator reference, the season-competition, and every group of the
/// season's enabled participations. Exactly when this fails, the stage
/// reports `NotFound`.
pub open spec fn spec_event_stage_ok(data: DataSet, ce: CompetitionEvent) -> bool {
    &&& ce.id is Some
    &&& spec_find_event(data.events@, ce.event_id) is Some
    &&& spec_calculator_ok(data, ce.score_calculator)
    &&& spec_find_sc(data.season_competitions@, ce.season_competition_id) is Some
    &&& spec_groups_ok(
        data,
        spec_find_sc(data.season_competitions@, ce.season_competition_id)->0.season_id,
    )
}

/// Every enabled event of the season-competition can be calculated.
pub open spec fn spec_events_ok(data: DataSet, sc_id: u128) -> bool {
    forall|i: int|
        0 <= i < data.competition_events@.len() ==> {
            let ce = #[trigger] data.competition_events@[i];
            (ce.enabled && ce.season_competition_id == sc_id) ==> spec_event_stage_ok(data, ce)
        }
}

/// Everything a competition-level calculation looks up exists, its own
/// references and those of every enabled event below it.
pub open spec fn spec_competition_stage_ok(data: DataSet, sc: SeasonCompetition) -> bool {
    &&& sc.id is Some
    &&& spec_find_competition(data.competitions@, sc.competition_id) is Some
    &&& spec_calculator_ok(data, sc.score_calculator)
    &&& spec_groups_ok(data, sc.season_id)
    &&& spec_events_ok(data, sc.id->0)
}

/// Everything a season-level calculation looks up exists, down through its
/// enabled competitions and their events.
pub open spec fn spec_season_ok(data: DataSet, season_id: u128) -> bool {
    &&& spec_find_season(data.seasons@, season_id) is Some
    &&& spec_calculator_ok(data, spec_find_season(data.seasons@, season_id)->0.score_calculator)
    &&& spec_groups_ok(data, season_id)
    &&& forall|i: int|
        0 <= i < data.season_competitions@.len() ==> {
            let sc = #[trigger] data.season_competitions@[i];
            (sc.enabled && sc.season_id == season_id) ==> spec_competition_stage_ok(data, sc)
        }
}

/// No participant stands anywhere a competition-level calculation would
/// score one: neither in its own season nor in any enabled event's.
pub open spec fn spec_competition_no_participants(data: DataSet, sc: SeasonCompetition) -> bool {
    &&& spec_no_participants(data, sc.season_id)
    &&& (sc.id is Some ==> forall|i: int|
        0 <= i < data.competition_events@.len() ==> {
            let ce = #[trigger] data.competition_events@[i];
            (ce.enabled && ce.season_competition_id == sc.id->0) ==> spec_no_participants(
                data,
                spec_find_sc(data.season_competitions@, ce.season_competition_id)->0.season_id,
            )
        })
}

/// No participant stands anywhere a season-level calculation would score
/// one.
pub open spec fn spec_season_no_participants(data: DataSet, season_id: u128) -> bool {
    &&& spec_no_participants(data, season_id)
    &&& forall|i: int|
        0 <= i < data.season_competitions@.len() ==> {
            let sc = #[trigger] data.season_competitions@[i];
            (sc.enabled && sc.season_id == season_id) ==> spec_competition_no_participants(
                data,
                sc,
            )
        }
}

/// A result list stands in presentation order: wherever a ranked row
/// stands, every row before it is ranked too and carries a rank number no
/// larger — so unranked rows all stand at the end.
pub open spec fn results_presented(rs: Seq<ScoreResult>) -> bool {
    forall|p: int, q: int|
        0 <= p <= q < rs.len() && result_rank(#[trigger] rs[q]) is Some ==> result_rank(
            #[trigger] rs[p],
        ) is Some && result_rank(rs[p])->0.m() <= result_rank(rs[q])->0.m()
}

/// The rank a result row carries.
pub open spec fn result_rank(e: ScoreResult) -> Option<Decimal> {
    match e {
        ScoreResult::Group { rank, .. } => rank,
        ScoreResult::Team { rank, .. } => rank,
    }
}

/// Every ranked result list is presented in order: wherever a ranked row
/// stands, every row before it is ranked too and carries a rank number no
/// larger, and every unranked row stands after all ranked ones.
pub proof fn lemma_results_presentation(entries: Seq<ScoreResult>, scores: Seq<Option<Decimal>>)
    requires
        entries.len() == scores.len(),
        scores.len() <= u64::MAX,
    ensures
        results_presented(spec_ranked_results(entries, scores)),
{
    let ranks = Seq::new(scores.len(), |i: int| spec_rank(scores, i));
    let ord = spec_order(ranks);
    let out = spec_ranked_results(entries, scores);
    crate::ranking::lemma_order_bounds(ranks);
    crate::ranking::lemma_presentation_order(ranks);
    assert forall|p: int, q: int|
        0 <= p <= q < out.len() && result_rank(#[trigger] out[q]) is Some implies result_rank(
        #[trigger] out[p],
    ) is Some && result_rank(out[p])->0.m() <= result_rank(out[q])->0.m() by {
        assert(out[p] == spec_with_rank(entries[ord[p]], spec_rank_decimal(ranks[ord[p]])));
        assert(out[q] == spec_with_rank(entries[ord[q]], spec_rank_decimal(ranks[ord[q]])));
        assert(result_rank(out[p]) == spec_rank_decimal(ranks[ord[p]]));
        assert(result_rank(out[q]) == spec_rank_decimal(ranks[ord[q]]));
        assert(ranks[ord[q]] is Some);
        assert(ranks[ord[p]] is Some && ranks[ord[p]]->0 <= ranks[ord[q]]->0);
        Decimal::lemma_raw(ranks[ord[p]]->0 as int, 0);
        Decimal::lemma_raw(ranks[ord[q]]->0 as int, 0);
    }
}

/// `e` with its rank replaced, as a fresh value.
fn with_rank(e: &ScoreResult, rank: Option<Decimal>) -> (r: ScoreResult)
    ensures
        r == spec_with_rank(*e, rank),
{
    match e {
        ScoreResult::Group { group_participation_id, group_name, rank: _ } => ScoreResult::Group {
            group_participation_id: *group_participation_id,
            group_name: group_name.clone(),
            rank,
        },
        ScoreResult::Team { team_id, group_name, team_name, rank: _ } => ScoreResult::Team {
            team_id: *team_id,
            group_name: group_name.clone(),
            team_name: team_name.clone(),
            rank,
        },
    }
}

/// Rank a level's participants by their scores and present them in rank
/// order; see `spec_ranked_results`. This is a pure function of its inputs:
/// recomputing it on unchanged data yields the identical result list.
pub fn rank_results(entries: &Vec<ScoreResult>, scores: &Vec<Option<Decimal>>) -> (r: Vec<
    ScoreResult,
>)
    requires
        entries@.len() == scores@.len(),
        scores@.len() < usize::MAX,
    ensures
        r@ == spec_ranked_results(entries@, scores@),
{
    let ranks = assign_ranks(scores);
    let ghost granks = Seq::new(scores@.len(), |i: int| spec_rank(scores@, i));
    proof {
        assert(ranks@ =~= granks);
    }
    let ord = ranked_order(&ranks);
    let mut out: Vec<ScoreResult> = Vec::new();
    let mut p: usize = 0;
    while p < ord.len()
        invariant
            p <= ord@.len(),
            ranks@ == granks,
            ord@.len() == spec_order(granks).len(),
            forall|q: int| 0 <= q < ord@.len() ==> ord@[q] == spec_order(granks)[q],
            forall|q: int| 0 <= q < ord@.len() ==> (#[trigger] ord@[q]) < entries@.len(),
            out@.len() == p,
            forall|q: int|
                0 <= q < p ==> out@[q] == spec_with_rank(
                    entries@[spec_order(granks)[q]],
                    spec_rank_decimal(granks[spec_order(granks)[q]]),
                ),
        decreases ord@.len() - p,
    {
        let idx = ord[p];
        let rank_dec = match ranks[idx] {
            Some(v) => Some(rank_to_decimal(v)),
            None => None,
        };
        out.push(with_rank(&entries[idx], rank_dec));
        p = p + 1;
    }
    proof {
        assert(out@ =~= spec_ranked_results(entries@, scores@));
    }
    out
}

/// A rank number as a decimal value.
fn rank_to_decimal(v: u64) -> (r: Decimal)
    ensures
        r == Decimal::raw(v as int, 0),
{
    let d = Decimal::new(v as i128, 0);
    match d {
        Some(x) => {
            proof {
                Decimal::lemma_raw(v as int, 0);
                assert(x.m() == Decimal::raw(v as int, 0).m());
                assert(x.s() == Decimal::raw(v as int, 0).s());
                lemma_decimal_field_eq(x, Decimal::raw(v as int, 0));
            }
            x
        },
        None => {
            proof {
                assert(false);
            }
            Decimal::zero()
        },
    }
}

/// Two decimals with the same parts are the same decimal.
proof fn lemma_decimal_field_eq(a: Decimal, b: Decimal)
    requires
        a.m() == b.m(),
        a.s() == b.s(),
    ensures
        a == b,
{
    crate::decimal::lemma_parts_determine(a, b);
}


/// Does this raw entry feed the given subject of the given event? Only
/// entries flagged valid count; invalid entries are omitted entirely.
pub open spec fn entry_matches(s: Score, event_id: u128, kind: ScoreType, subject_id: u128)
    -> bool {
    s.competition_event_id == event_id && s.score_type == kind && s.subject_id == subject_id
        && s.valid
}

/// What the calculator sees for one raw entry: the opaque score data, or an
/// explicit null placeholder when the entry is disqualified — present, never
/// silently omitted.
pub open spec fn spec_entry_datum(s: Score) -> Vt {
    if s.disqualified {
        Vt::Null
    } else {
        s.score_data.dv()
    }
}

/// The score sequence handed to the calculator for one subject: the matching
/// entries of the first `n` raw entries, in stored (newest-first) order.
pub open spec fn spec_gather(
    scores: Seq<Score>,
    event_id: u128,
    kind: ScoreType,
    subject_id: u128,
    n: int,
) -> Seq<Vt>
    decreases n,
{
    if n <= 0 {
        Seq::empty()
    } else {
        spec_gather(scores, event_id, kind, subject_id, n - 1) + if entry_matches(
            scores[n - 1],
            event_id,
            kind,
            subject_id,
        ) {
            seq![spec_entry_datum(scores[n - 1])]
        } else {
            Seq::empty()
        }
    }
}

/// Collect one subject's score sequence for one event; see `spec_gather`.
pub fn gather_subject_scores(
    scores: &Vec<Score>,
    event_id: u128,
    kind: ScoreType,
    subject_id: u128,
) -> (r: Vec<Datum>)
    ensures
        datums_view(r@) == spec_gather(scores@, event_id, kind, subject_id, scores@.len() as int),
{
    let mut out: Vec<Datum> = Vec::new();
    let mut i: usize = 0;
    while i < scores.len()
        invariant
            i <= scores@.len(),
            datums_view(out@) =~= spec_gather(scores@, event_id, kind, subject_id, i as int),
        decreases scores@.len() - i,
    {
        let s = &scores[i];
        if s.competition_event_id == event_id && s.score_type == kind && s.subject_id == subject_id
            && s.valid {
            if s.disqualified {
                out.push(Datum::Null);
            } else {
                out.push(s.score_data.deep_clone());
            }
        }
        i = i + 1;
        proof {
            assert(datums_view(out@) =~= spec_gather(
                scores@,
                event_id,
                kind,
                subject_id,
                i as int,
            ));
        }
    }
    out
}

/// The entry list of a table datum; empty for any other datum.
pub open spec fn pairs_of(v: Datum) -> Seq<(String, Datum)> {
    match v {
        Datum::Table(pairs) => pairs@,
        _ => Seq::empty(),
    }
}

/// The script-facing participant record at the event level.
pub open spec fn spec_event_unit(kind: ScoreType, subject_id: u128, scores: Seq<Vt>) -> Vt {
    Vt::Table(
        seq![
            ("id"@, Vt::Str(digit_seq(subject_id as nat))),
            (
                "type"@,
                Vt::Str(
                    if kind is Team {
                        "Team"@
                    } else {
                        "Group"@
                    },
                ),
            ),
            ("scores"@, Vt::Array(scores)),
        ],
    )
}

/// Build the participant record handed to `calculate_event_scores`.
pub fn build_event_unit(kind: ScoreType, subject_id: u128, scores: Vec<Datum>) -> (r: Datum)
    ensures
        r.dv() == spec_event_unit(kind, subject_id, datums_view(scores@)),
{
    let ghost sview = datums_view(scores@);
    let mut pairs: Vec<(String, Datum)> = Vec::new();
    pairs.push((String::from_str("id"), Datum::Str(u128_to_string(subject_id))));
    let kind_name = if let ScoreType::Team = kind {
        String::from_str("Team")
    } else {
        String::from_str("Group")
    };
    pairs.push((String::from_str("type"), Datum::Str(kind_name)));
    pairs.push((String::from_str("scores"), Datum::Array(scores)));
    let r = Datum::Table(pairs);
    proof {
        lemma_dv_open(r);
        lemma_dv_open(pairs_of(r)[2].1);
        assert(crate::value::table_pairs(r.dv()) =~~= crate::value::table_pairs(
            spec_event_unit(kind, subject_id, sview),
        ));
        assert(r.dv() == spec_event_unit(kind, subject_id, sview));
    }
    r
}

/// The script-facing participant record at the competition and season
/// levels: the identity plus the ordered opaque payloads from below.
pub open spec fn spec_data_unit(subject_id: u128, data: Seq<Vt>) -> Vt {
    Vt::Table(
        seq![
            ("id"@, Vt::Str(digit_seq(subject_id as nat))),
            ("data"@, Vt::Array(data)),
        ],
    )
}

/// Build the participant record handed to the competition and season
/// calculators.
pub fn build_data_unit(subject_id: u128, data: Vec<Datum>) -> (r: Datum)
    ensures
        r.dv() == spec_data_unit(subject_id, datums_view(data@)),
{
    let ghost dview = datums_view(data@);
    let mut pairs: Vec<(String, Datum)> = Vec::new();
    pairs.push((String::from_str("id"), Datum::Str(u128_to_string(subject_id))));
    pairs.push((String::from_str("data"), Datum::Array(data)));
    let r = Datum::Table(pairs);
    proof {
        lemma_dv_open(r);
        let tp = crate::value::table_pairs(r.dv());
        assert forall|i: int| 0 <= i < tp.len() implies tp[i] == crate::value::pairs_view(
            pairs_of(r),
        )[i] by {
        }
        lemma_dv_open(pairs_of(r)[1].1);
        assert(crate::value::table_pairs(r.dv()) =~~= crate::value::table_pairs(
            spec_data_unit(subject_id, dview),
        ));
        assert(r.dv() == spec_data_unit(subject_id, dview));
    }
    r
}

/// Does this returned row carry the given subject identity?
pub open spec fn row_matches(v: Vt, idtext: Seq<char>) -> bool {
    v is Table && spec_get(v, "id"@) == Some(Vt::Str(idtext))
}

/// The first returned row carrying the given identity, among the first `n`.
pub open spec fn first_row(items: Seq<Vt>, idtext: Seq<char>, n: int) -> Option<Vt>
    decreases n,
{
    if n <= 0 {
        None
    } else {
        match first_row(items, idtext, n - 1) {
            Some(v) => Some(v),
            None => if row_matches(items[n - 1], idtext) {
                Some(items[n - 1])
            } else {
                None
            },
        }
    }
}

/// A row found among the first `m` entries stays the result for any longer
/// prefix.
proof fn lemma_first_row_extend(items: Seq<Vt>, idtext: Seq<char>, m: int, n: int)
    requires
        m <= n,
        first_row(items, idtext, m) is Some,
    ensures
        first_row(items, idtext, n) == first_row(items, idtext, m),
    decreases n - m,
{
    if m < n {
        lemma_first_row_extend(items, idtext, m, n - 1);
    }
}

/// The score a returned row reports under `skey`: a decimal or an integer is
/// a score, null or an absent field is "unranked", anything else is a shape
/// error.
pub open spec fn spec_row_score(row: Vt, skey: Seq<char>) -> Option<Option<Decimal>> {
    match spec_get(row, skey) {
        None => Some(None),
        Some(Vt::Null) => Some(None),
        Some(Vt::Dec(d)) => Some(Some(d)),
        Some(Vt::Int(i)) => Some(Some(Decimal::raw(i, 0))),
        Some(_) => None,
    }
}

/// The opaque payload a returned row forwards under `dkey`; null when the
/// level forwards nothing.
pub open spec fn spec_row_payload(row: Vt, dkey: Option<Seq<char>>) -> Vt {
    match dkey {
        None => Vt::Null,
        Some(k) => match spec_get(row, k) {
            Some(v) => v,
            None => Vt::Null,
        },
    }
}

/// Validate one subject's row out of a calculator's return value: the value
/// must be an array holding a row for the subject, the row's score must be a
/// decimal, an integer or null. Eagerly checked; nothing untyped leaks past
/// this point.
pub fn extract_subject_result(ret: &Datum, subject_id: u128, score_key: &str, data_key: Option<
    &str,
>) -> (r: Result<(Option<Decimal>, Datum), CalcError>)
    ensures
        ({
            let idtext = digit_seq(subject_id as nat);
            let dkey = match data_key {
                Some(k) => Some(k@),
                None => None,
            };
            match ret.dv() {
                Vt::Array(items) => match first_row(items, idtext, items.len() as int) {
                    Some(row) => match r {
                        Ok(p) => spec_row_score(row, score_key@) == Some(p.0) && p.1.dv()
                            == spec_row_payload(row, dkey),
                        Err(e) => e is TypeMismatch && spec_row_score(row, score_key@) is None,
                    },
                    None => r matches Err(e) && e is TypeMismatch,
                },
                _ => r matches Err(e) && e is TypeMismatch,
            }
        }),
{
    let ghost idtext = digit_seq(subject_id as nat);
    let idstring = u128_to_string(subject_id);
    let items: &Vec<Datum> = match ret {
        Datum::Array(items) => items,
        _ => {
            return Err(CalcError::TypeMismatch(String::from_str("calculator must return a list")));
        },
    };
    proof {
        assert(crate::value::arr_items(ret.dv()) =~= datums_view(items@));
    }
    let ghost iview = datums_view(items@);
    let mut i: usize = 0;
    while i < items.len()
        invariant
            i <= items@.len(),
            iview == datums_view(items@),
            ret.dv() matches Vt::Array(xs) && xs == iview,
            idtext == digit_seq(subject_id as nat),
            idstring@ == idtext,
            first_row(iview, idtext, i as int) is None,
        decreases items@.len() - i,
    {
        let row = &items[i];
        let is_match = match row.get("id") {
            Some(Datum::Str(s)) => crate::value::str_eq(s.as_str(), idstring.as_str()),
            _ => false,
        };
        proof {
            assert(iview[i as int] == items@[i as int].dv());
        }
        if is_match {
            proof {
                assert(row_matches(iview[i as int], idtext));
                assert(first_row(iview, idtext, i + 1) == Some(iview[i as int]));
                lemma_first_row_extend(iview, idtext, i + 1, iview.len() as int);
            }
            let score = match row.get(score_key) {
                None => None,
                Some(Datum::Null) => None,
                Some(Datum::Dec(d)) => Some(*d),
                Some(Datum::Int(v)) => Some(int_score(*v)),
                Some(_) => {
                    return Err(
                        CalcError::TypeMismatch(String::from_str("score must be a number or null")),
                    );
                },
            };
            let payload = match data_key {
                None => Datum::Null,
                Some(k) => match row.get(k) {
                    Some(v) => v.deep_clone(),
                    None => Datum::Null,
                },
            };
            return Ok((score, payload));
        }
        proof {
            assert(!row_matches(iview[i as int], idtext));
        }
        i = i + 1;
    }
    Err(CalcError::TypeMismatch(String::from_str("calculator returned no row for the subject")))
}

/// An integer score as the decimal it denotes.
fn int_score(v: i64) -> (r: Decimal)
    ensures
        r == Decimal::raw(v as int, 0),
{
    let d = Decimal::from_i64(v);
    proof {
        Decimal::lemma_raw(v as int, 0);
        lemma_decimal_field_eq(d, Decimal::raw(v as int, 0));
    }
    d
}



// ---------------------------------------------------------------------------
// Which payloads a subject rolls up from the stages below.
// ---------------------------------------------------------------------------

/// The payload a stage produced for one subject: the first entry of the
/// aligned subject list matching the subject, scanned from position `i`.
pub open spec fn spec_find_payload(
    subjects: Seq<(ScoreType, u128)>,
    payloads: Seq<Vt>,
    kind: ScoreType,
    id: u128,
    i: int,
) -> Option<Vt>
    decreases subjects.len() - i,
{
    if i < 0 || i >= subjects.len() {
        None
    } else if subjects[i].0 == kind && subjects[i].1 == id {
        Some(payloads[i])
    } else {
        spec_find_payload(subjects, payloads, kind, id, i + 1)
    }
}

/// A found payload as a one-element sequence; nothing when the stage
/// produced none for the subject.
pub open spec fn opt_payload_seq(o: Option<Vt>) -> Seq<Vt> {
    match o {
        Some(v) => seq![v],
        None => Seq::empty(),
    }
}

/// One subject's payloads across the first `e` stages, in stage order.
pub open spec fn spec_subject_payloads(
    stage_subjects: Seq<Seq<(ScoreType, u128)>>,
    stage_payloads: Seq<Seq<Vt>>,
    kind: ScoreType,
    id: u128,
    e: int,
) -> Seq<Vt>
    decreases e,
{
    if e <= 0 {
        Seq::empty()
    } else {
        spec_subject_payloads(stage_subjects, stage_payloads, kind, id, e - 1) + opt_payload_seq(
            spec_find_payload(stage_subjects[e - 1], stage_payloads[e - 1], kind, id, 0),
        )
    }
}

/// The payloads of every enabled team of the group participation within one
/// stage, over the first `n` stored teams, in stored order. No team's
/// payload is omitted: each enabled team of the group that the stage scored
/// contributes exactly its payload.
pub open spec fn spec_group_team_payloads(
    teams: Seq<Team>,
    subjects: Seq<(ScoreType, u128)>,
    payloads: Seq<Vt>,
    gp_id: u128,
    n: int,
) -> Seq<Vt>
    decreases n,
{
    if n <= 0 {
        Seq::empty()
    } else {
        spec_group_team_payloads(teams, subjects, payloads, gp_id, n - 1) + (if teams[n
            - 1].enabled && teams[n - 1].group_participation_id == gp_id && teams[n - 1].id
            is Some {
            opt_payload_seq(
                spec_find_payload(subjects, payloads, ScoreType::Team, teams[n - 1].id->0, 0),
            )
        } else {
            Seq::empty()
        })
    }
}

/// What a group participation rolls up from the first `e` stages below: per
/// stage, its own payload, then every enabled team's, in stored team order.
pub open spec fn spec_group_payloads(
    teams: Seq<Team>,
    stage_subjects: Seq<Seq<(ScoreType, u128)>>,
    stage_payloads: Seq<Seq<Vt>>,
    gp_id: u128,
    e: int,
) -> Seq<Vt>
    decreases e,
{
    if e <= 0 {
        Seq::empty()
    } else {
        spec_group_payloads(teams, stage_subjects, stage_payloads, gp_id, e - 1)
            + opt_payload_seq(
            spec_find_payload(
                stage_subjects[e - 1],
                stage_payloads[e - 1],
                ScoreType::Group,
                gp_id,
                0,
            ),
        ) + spec_group_team_payloads(
            teams,
            stage_subjects[e - 1],
            stage_payloads[e - 1],
            gp_id,
            teams.len() as int,
        )
    }
}

/// The views of a stage list's subject columns.
pub open spec fn stage_subject_views(v: Seq<Vec<(ScoreType, u128)>>) -> Seq<
    Seq<(ScoreType, u128)>,
> {
    Seq::new(v.len(), |e: int| v[e]@)
}

/// The views of a stage list's payload columns.
pub open spec fn stage_payload_views(v: Seq<Vec<Datum>>) -> Seq<Seq<Vt>> {
    Seq::new(v.len(), |e: int| datums_view(v[e]@))
}

/// Error kinds that end the whole calculation: the script cannot compile,
/// the calculator function is missing, an entity reference dangles, or the
/// host itself failed. Everything else isolates to a single participant.
pub open spec fn fatal_error(e: CalcError) -> bool {
    ||| e is ScriptCompileError
    ||| e is FunctionNotFound
    ||| e is NotFound
    ||| e is Internal
}

/// Per-participant isolation: a participant whose calculation failed for a
/// reason of its own (a runtime exception, a timeout, a malformed row) is
/// reported unranked with no payload, and the other participants' results
/// stand. Fatal failures pass through.
fn isolate_subject(r: Result<(Option<Decimal>, Datum), CalcError>) -> (out: Result<
    (Option<Decimal>, Datum),
    CalcError,
>)
    ensures
        match r {
            Ok(p) => out == Ok::<(Option<Decimal>, Datum), CalcError>(p),
            Err(e) => if fatal_error(e) {
                out == Err::<(Option<Decimal>, Datum), CalcError>(e)
            } else {
                out matches Ok(p) && p.0 is None && p.1.dv() is Null
            },
        },
{
    match r {
        Ok(p) => Ok(p),
        Err(e) => {
            let keep = match &e {
                CalcError::ScriptCompileError(_) => true,
                CalcError::FunctionNotFound(_) => true,
                CalcError::NotFound(_) => true,
                CalcError::Internal(_) => true,
                _ => false,
            };
            if keep {
                Err(e)
            } else {
                Ok((None, Datum::Null))
            }
        },
    }
}

/// The three-level results calculator: a domain snapshot, the built-in
/// default calculator, and one script interpreter.
pub struct ResultsCalculator {
    data: DataSet,
    default_calculator: ScoreCalculator,
    ctx: CalculatorScriptContext,
}

impl ResultsCalculator {
    /// The snapshot this calculator reads.
    pub closed spec fn dataset(self) -> DataSet {
        self.data
    }

    /// A calculator over a domain snapshot, whose score entries must stand
    /// newest first, as the persistence collaborator supplies them. Fails
    /// only when the interpreter cannot be built.
    pub fn new(data: DataSet) -> (r: Result<ResultsCalculator, CalcError>)
        requires
            data.wf(),
        ensures
            r matches Ok(c) ==> c.dataset() == data,
            r matches Err(e) ==> e is Internal,
    {
        let ctx = match CalculatorScriptContext::new() {
            Ok(c) => c,
            Err(e) => {
                return Err(e);
            },
        };
        Ok(
            ResultsCalculator {
                data,
                default_calculator: ScoreCalculator::get_default(),
                ctx,
            },
        )
    }

    fn find_competition_event<'a>(&'a self, id: u128) -> (r: Option<&'a CompetitionEvent>)
        ensures
            match r {
                Some(ce) => spec_find_ce(self.dataset().competition_events@, id) == Some(*ce),
                None => spec_find_ce(self.dataset().competition_events@, id) is None,
            },
    {
        let v = &self.data.competition_events;
        let mut i: usize = 0;
        proof {
            assert(v@.subrange(0, v@.len() as int) =~= v@);
        }
        while i < v.len()
            invariant
                i <= v@.len(),
                v == self.dataset().competition_events,
                spec_find_ce(v@, id) == spec_find_ce(v@.subrange(i as int, v@.len() as int), id),
            decreases v@.len() - i,
        {
            let ghost rest = v@.subrange(i as int, v@.len() as int);
            proof {
                assert(rest[0] == v@[i as int]);
                assert(rest.subrange(1, rest.len() as int) =~= v@.subrange(
                    i + 1,
                    v@.len() as int,
                ));
            }
            let hit = match v[i].id {
                Some(x) => x == id,
                None => false,
            };
            if hit {
                return Some(&v[i]);
            }
            i = i + 1;
        }
        None
    }

    fn find_event_name(&self, id: u128) -> (r: Option<String>)
        ensures
            r is Some <==> spec_find_event(self.dataset().events@, id) is Some,
            r matches Some(n) ==> n@ == spec_find_event(self.dataset().events@, id)->0.name@,
    {
        let v = &self.data.events;
        let mut i: usize = 0;
        proof {
            assert(v@.subrange(0, v@.len() as int) =~= v@);
        }
        while i < v.len()
            invariant
                i <= v@.len(),
                v == self.dataset().events,
                spec_find_event(v@, id) == spec_find_event(
                    v@.subrange(i as int, v@.len() as int),
                    id,
                ),
            decreases v@.len() - i,
        {
            let ghost rest = v@.subrange(i as int, v@.len() as int);
            proof {
                assert(rest[0] == v@[i as int]);
                assert(rest.subrange(1, rest.len() as int) =~= v@.subrange(
                    i + 1,
                    v@.len() as int,
                ));
            }
            let hit = match v[i].id {
                Some(x) => x == id,
                None => false,
            };
            if hit {
                return Some(v[i].name.clone());
            }
            i = i + 1;
        }
        None
    }

    fn find_season_competition<'a>(&'a self, id: u128) -> (r: Option<&'a SeasonCompetition>)
        ensures
            match r {
                Some(sc) => spec_find_sc(self.dataset().season_competitions@, id) == Some(*sc),
                None => spec_find_sc(self.dataset().season_competitions@, id) is None,
            },
    {
        let v = &self.data.season_competitions;
        let mut i: usize = 0;
        proof {
            assert(v@.subrange(0, v@.len() as int) =~= v@);
        }
        while i < v.len()
            invariant
                i <= v@.len(),
                v == self.dataset().season_competitions,
                spec_find_sc(v@, id) == spec_find_sc(v@.subrange(i as int, v@.len() as int), id),
            decreases v@.len() - i,
        {
            let ghost rest = v@.subrange(i as int, v@.len() as int);
            proof {
                assert(rest[0] == v@[i as int]);
                assert(rest.subrange(1, rest.len() as int) =~= v@.subrange(
                    i + 1,
                    v@.len() as int,
                ));
            }
            let hit = match v[i].id {
                Some(x) => x == id,
                None => false,
            };
            if hit {
                return Some(&v[i]);
            }
            i = i + 1;
        }
        None
    }

    fn find_competition_name(&self, id: u128) -> (r: Option<String>)
        ensures
            r is Some <==> spec_find_competition(self.dataset().competitions@, id) is Some,
            r matches Some(n) ==> n@ == spec_find_competition(
                self.dataset().competitions@,
                id,
            )->0.name@,
    {
        let v = &self.data.competitions;
        let mut i: usize = 0;
        proof {
            assert(v@.subrange(0, v@.len() as int) =~= v@);
        }
        while i < v.len()
            invariant
                i <= v@.len(),
                v == self.dataset().competitions,
                spec_find_competition(v@, id) == spec_find_competition(
                    v@.subrange(i as int, v@.len() as int),
                    id,
                ),
            decreases v@.len() - i,
        {
            let ghost rest = v@.subrange(i as int, v@.len() as int);
            proof {
                assert(rest[0] == v@[i as int]);
                assert(rest.subrange(1, rest.len() as int) =~= v@.subrange(
                    i + 1,
                    v@.len() as int,
                ));
            }
            let hit = match v[i].id {
                Some(x) => x == id,
                None => false,
            };
            if hit {
                return Some(v[i].name.clone());
            }
            i = i + 1;
        }
        None
    }

    fn find_season<'a>(&'a self, id: u128) -> (r: Option<&'a Season>)
        ensures
            match r {
                Some(season) => spec_find_season(self.dataset().seasons@, id) == Some(*season),
                None => spec_find_season(self.dataset().seasons@, id) is None,
            },
    {
        let v = &self.data.seasons;
        let mut i: usize = 0;
        proof {
            assert(v@.subrange(0, v@.len() as int) =~= v@);
        }
        while i < v.len()
            invariant
                i <= v@.len(),
                v == self.dataset().seasons,
                spec_find_season(v@, id) == spec_find_season(
                    v@.subrange(i as int, v@.len() as int),
                    id,
                ),
            decreases v@.len() - i,
        {
            let ghost rest = v@.subrange(i as int, v@.len() as int);
            proof {
                assert(rest[0] == v@[i as int]);
                assert(rest.subrange(1, rest.len() as int) =~= v@.subrange(
                    i + 1,
                    v@.len() as int,
                ));
            }
            let hit = match v[i].id {
                Some(x) => x == id,
                None => false,
            };
            if hit {
                return Some(&v[i]);
            }
            i = i + 1;
        }
        None
    }

    fn find_group_name(&self, id: u128) -> (r: Option<String>)
        ensures
            r is Some <==> spec_find_group(self.dataset().groups@, id) is Some,
            r matches Some(n) ==> n@ == spec_find_group(self.dataset().groups@, id)->0.name@,
    {
        let v = &self.data.groups;
        let mut i: usize = 0;
        proof {
            assert(v@.subrange(0, v@.len() as int) =~= v@);
        }
        while i < v.len()
            invariant
                i <= v@.len(),
                v == self.dataset().groups,
                spec_find_group(v@, id) == spec_find_group(
                    v@.subrange(i as int, v@.len() as int),
                    id,
                ),
            decreases v@.len() - i,
        {
            let ghost rest = v@.subrange(i as int, v@.len() as int);
            proof {
                assert(rest[0] == v@[i as int]);
                assert(rest.subrange(1, rest.len() as int) =~= v@.subrange(
                    i + 1,
                    v@.len() as int,
                ));
            }
            let hit = match v[i].id {
                Some(x) => x == id,
                None => false,
            };
            if hit {
                return Some(v[i].name.clone());
            }
            i = i + 1;
        }
        None
    }

    /// Score one subject of one event: gather its entry sequence, invoke
    /// `calculate_event_scores` on the singleton participant list, and
    /// validate the returned row. Whatever the script did, the result is a
    /// typed value or a typed error.
    fn score_event_subject(
        &self,
        cal: &ScoreCalculator,
        config: &Datum,
        event_id: u128,
        kind: ScoreType,
        subject_id: u128,
    ) -> (r: Result<(Option<Decimal>, Datum), CalcError>)
        ensures
            r matches Err(e) ==> !(e is NotFound) && !(e is DivisionByZero),
    {
        let scores = gather_subject_scores(&self.data.scores, event_id, kind, subject_id);
        let unit = build_event_unit(kind, subject_id, scores);
        let mut units_vec: Vec<Datum> = Vec::new();
        units_vec.push(unit);
        let units = Datum::Array(units_vec);
        let ret = match self.ctx.execute_function(
            cal.script.as_str(),
            "calculate_event_scores",
            &units,
            config,
        ) {
            Ok(v) => v,
            Err(e) => {
                return Err(e);
            },
        };
        extract_subject_result(&ret, subject_id, "event_score", Some("competition_data"))
    }

    /// Score one subject at the competition or season level from the opaque
    /// payloads the level below produced for it.
    fn score_data_subject(
        &self,
        cal: &ScoreCalculator,
        config: &Datum,
        function_name: &str,
        score_key: &str,
        data_key: Option<&str>,
        subject_id: u128,
        data: Vec<Datum>,
    ) -> (r: Result<(Option<Decimal>, Datum), CalcError>)
        ensures
            r matches Err(e) ==> !(e is NotFound) && !(e is DivisionByZero),
    {
        let unit = build_data_unit(subject_id, data);
        let mut units_vec: Vec<Datum> = Vec::new();
        units_vec.push(unit);
        let units = Datum::Array(units_vec);
        let ret = match self.ctx.execute_function(
            cal.script.as_str(),
            function_name,
            &units,
            config,
        ) {
            Ok(v) => v,
            Err(e) => {
                return Err(e);
            },
        };
        extract_subject_result(&ret, subject_id, score_key, data_key)
    }

    /// The participants of one event, with their display records: the teams
    /// or the group participations enrolled in the event's season, as its
    /// score type demands. Fails, with `NotFound`, exactly when the event's
    /// season-competition is absent or an enabled participation's group is.
    fn event_participants(&self, ce: &CompetitionEvent) -> (r: Result<
        Vec<(ScoreType, u128, ScoreResult)>,
        CalcError,
    >)
        ensures
            r matches Err(e) ==> e is NotFound,
            (r is Err) <==> !({
                &&& spec_find_sc(self.dataset().season_competitions@, ce.season_competition_id)
                    is Some
                &&& spec_groups_ok(
                    self.dataset(),
                    spec_find_sc(
                        self.dataset().season_competitions@,
                        ce.season_competition_id,
                    )->0.season_id,
                )
            }),
            (spec_find_sc(self.dataset().season_competitions@, ce.season_competition_id) is Some
                && spec_no_participants(
                self.dataset(),
                spec_find_sc(
                    self.dataset().season_competitions@,
                    ce.season_competition_id,
                )->0.season_id,
            )) ==> (r matches Ok(p) && p@.len() == 0),
    {
        let sc = match self.find_season_competition(ce.season_competition_id) {
            Some(x) => x,
            None => {
                return Err(CalcError::NotFound(String::from_str("season competition")));
            },
        };
        self.season_participants(sc.season_id, ce.score_type)
    }

    /// The participants of one season, as teams or as group participations.
    /// Fails, with `NotFound`, exactly when an enabled participation of the
    /// season names a group that is not stored; yields the empty list when
    /// the season has no enabled participation.
    fn season_participants(&self, season_id: u128, kind: ScoreType) -> (r: Result<
        Vec<(ScoreType, u128, ScoreResult)>,
        CalcError,
    >)
        ensures
            r matches Err(e) ==> e is NotFound,
            (r is Err) <==> !spec_groups_ok(self.dataset(), season_id),
            spec_no_participants(self.dataset(), season_id) ==> (r matches Ok(p) && p@.len()
                == 0),
    {
        let mut out: Vec<(ScoreType, u128, ScoreResult)> = Vec::new();
        let gps = &self.data.group_participations;
        let mut i: usize = 0;
        while i < gps.len()
            invariant
                i <= gps@.len(),
                gps == self.dataset().group_participations,
                forall|t: int|
                    0 <= t < i ==> {
                        let gp = #[trigger] gps@[t];
                        (gp.enabled && gp.season_id == season_id && gp.id is Some)
                            ==> spec_find_group(self.dataset().groups@, gp.group_id) is Some
                    },
                spec_no_participants(self.dataset(), season_id) ==> out@.len() == 0,
            decreases gps@.len() - i,
        {
            let gp = &gps[i];
            let gp_id = match gp.id {
                Some(x) => x,
                None => {
                    i = i + 1;
                    continue ;
                },
            };
            if gp.enabled && gp.season_id == season_id {
                let group_name = match self.find_group_name(gp.group_id) {
                    Some(n) => n,
                    None => {
                        proof {
                            assert(!spec_groups_ok(self.dataset(), season_id)) by {
                                assert(0 <= i < gps@.len() && gps@[i as int].enabled
                                    && gps@[i as int].season_id == season_id && gps@[i as int].id
                                    is Some && spec_find_group(
                                    self.dataset().groups@,
                                    gps@[i as int].group_id,
                                ) is None);
                            }
                        }
                        return Err(CalcError::NotFound(String::from_str("group")));
                    },
                };
                proof {
                    assert(!spec_no_participants(self.dataset(), season_id)) by {
                        assert(0 <= i < gps@.len() && gps@[i as int].enabled
                            && gps@[i as int].season_id == season_id && gps@[i as int].id
                            is Some);
                    }
                }
                if let ScoreType::Group = kind {
                    let entry = ScoreResult::Group {
                        group_participation_id: gp_id,
                        group_name,
                        rank: None,
                    };
                    out.push((ScoreType::Group, gp_id, entry));
                } else {
                    let teams = &self.data.teams;
                    let mut t: usize = 0;
                    while t < teams.len()
                        invariant
                            t <= teams@.len(),
                            teams == self.dataset().teams,
                        decreases teams@.len() - t,
                    {
                        let team = &teams[t];
                        let team_id = match team.id {
                            Some(x) => x,
                            None => {
                                t = t + 1;
                                continue ;
                            },
                        };
                        if team.enabled && team.group_participation_id == gp_id {
                            let entry = ScoreResult::Team {
                                team_id,
                                group_name: group_name.clone(),
                                team_name: team.name.clone(),
                                rank: None,
                            };
                            out.push((ScoreType::Team, team_id, entry));
                        }
                        t = t + 1;
                    }
                }
            }
            i = i + 1;
        }
        Ok(out)
    }
}


/// One subject's payloads across the stages below, in stage order; stages
/// that produced none for it contribute nothing. See
/// `spec_subject_payloads`.
fn collect_payloads(
    stage_subjects: &Vec<Vec<(ScoreType, u128)>>,
    stage_payloads: &Vec<Vec<Datum>>,
    kind: ScoreType,
    id: u128,
) -> (r: Vec<Datum>)
    requires
        stage_subjects@.len() == stage_payloads@.len(),
        forall|q: int|
            0 <= q < stage_subjects@.len() ==> (#[trigger] stage_subjects@[q])@.len()
                == stage_payloads@[q]@.len(),
    ensures
        datums_view(r@) == spec_subject_payloads(
            stage_subject_views(stage_subjects@),
            stage_payload_views(stage_payloads@),
            kind,
            id,
            stage_subjects@.len() as int,
        ),
{
    let ghost sviews = stage_subject_views(stage_subjects@);
    let ghost pviews = stage_payload_views(stage_payloads@);
    let mut out: Vec<Datum> = Vec::new();
    proof {
        assert(datums_view(out@) =~= spec_subject_payloads(sviews, pviews, kind, id, 0));
    }
    let mut e: usize = 0;
    while e < stage_subjects.len()
        invariant
            e <= stage_subjects@.len(),
            stage_subjects@.len() == stage_payloads@.len(),
            sviews == stage_subject_views(stage_subjects@),
            pviews == stage_payload_views(stage_payloads@),
            forall|q: int|
                0 <= q < stage_subjects@.len() ==> (#[trigger] stage_subjects@[q])@.len()
                    == stage_payloads@[q]@.len(),
            datums_view(out@) =~= spec_subject_payloads(sviews, pviews, kind, id, e as int),
        decreases stage_subjects@.len() - e,
    {
        proof {
            assert(sviews[e as int] == stage_subjects@[e as int]@);
            assert(pviews[e as int] == datums_view(stage_payloads@[e as int]@));
        }
        match find_payload(&stage_subjects[e], &stage_payloads[e], kind, id) {
            Some(p) => {
                let c = p.deep_clone();
                out.push(c);
            },
            None => (),
        }
        e = e + 1;
        proof {
            assert(datums_view(out@) =~= spec_subject_payloads(sviews, pviews, kind, id, e as int));
        }
    }
    out
}

/// The payload the level below produced for one subject, if any; see
/// `spec_find_payload`.
fn find_payload<'a>(
    subjects: &Vec<(ScoreType, u128)>,
    payloads: &'a Vec<Datum>,
    kind: ScoreType,
    id: u128,
) -> (r: Option<&'a Datum>)
    requires
        subjects@.len() == payloads@.len(),
    ensures
        match r {
            Some(p) => spec_find_payload(subjects@, datums_view(payloads@), kind, id, 0) == Some(
                p.dv(),
            ),
            None => spec_find_payload(subjects@, datums_view(payloads@), kind, id, 0) is None,
        },
{
    let mut i: usize = 0;
    while i < subjects.len()
        invariant
            i <= subjects@.len(),
            subjects@.len() == payloads@.len(),
            spec_find_payload(subjects@, datums_view(payloads@), kind, id, 0)
                == spec_find_payload(subjects@, datums_view(payloads@), kind, id, i as int),
        decreases subjects@.len() - i,
    {
        if subjects[i].0 == kind && subjects[i].1 == id {
            proof {
                assert(datums_view(payloads@)[i as int] == payloads@[i as int].dv());
            }
            return Some(&payloads[i]);
        }
        i = i + 1;
    }
    None
}

impl ResultsCalculator {
    /// Stage one for one event: score every participant in isolation, rank
    /// them, and keep each participant's opaque payload for the level above.
    /// `NotFound` comes exactly when a reference of the stage is broken; all
    /// references are checked before any script runs, so a reference-intact
    /// stage with no participants succeeds without running one.
    fn run_event_stage(&self, ce: &CompetitionEvent) -> (r: Result<
        (EventResult, Vec<(ScoreType, u128)>, Vec<Datum>),
        CalcError,
    >)
        ensures
            r matches Ok(t) ==> t.1@.len() == t.2@.len(),
            r matches Err(e) ==> fatal_error(e),
            (r matches Err(e) && e is NotFound) <==> !spec_event_stage_ok(self.dataset(), *ce),
            (spec_event_stage_ok(self.dataset(), *ce) && spec_no_participants(
                self.dataset(),
                spec_find_sc(
                    self.dataset().season_competitions@,
                    ce.season_competition_id,
                )->0.season_id,
            )) ==> r is Ok,
            r matches Ok(t) ==> results_presented(t.0.results@) && t.0.event_name@
                == spec_find_event(self.dataset().events@, ce.event_id)->0.name@,
    {
        let event_name = match self.find_event_name(ce.event_id) {
            Some(n) => n,
            None => {
                return Err(CalcError::NotFound(String::from_str("event")));
            },
        };
        let cal = match resolve_calculator(
            &self.data.score_calculators,
            ce.score_calculator,
            &self.default_calculator,
        ) {
            Ok(c) => c,
            Err(e) => {
                return Err(e);
            },
        };
        let config = merge_config(&cal.default_config, &ce.calculator_config);
        let parts = match self.event_participants(ce) {
            Ok(p) => p,
            Err(e) => {
                return Err(e);
            },
        };
        let ce_id = match ce.id {
            Some(x) => x,
            None => {
                return Err(CalcError::NotFound(String::from_str("competition event")));
            },
        };
        let mut entries: Vec<ScoreResult> = Vec::new();
        let mut scores: Vec<Option<Decimal>> = Vec::new();
        let mut subjects: Vec<(ScoreType, u128)> = Vec::new();
        let mut payloads: Vec<Datum> = Vec::new();
        let mut i: usize = 0;
        while i < parts.len()
            invariant
                i <= parts@.len(),
                entries@.len() == scores@.len(),
                subjects@.len() == payloads@.len(),
                entries@.len() == i,
                subjects@.len() == i,
            decreases parts@.len() - i,
        {
            let (kind, subject_id, _) = &parts[i];
            let outcome = isolate_subject(
                self.score_event_subject(cal, &config, ce_id, *kind, *subject_id),
            );
            match outcome {
                Ok((score, payload)) => {
                    entries.push(with_rank(&parts[i].2, None));
                    scores.push(score);
                    subjects.push((*kind, *subject_id));
                    payloads.push(payload);
                },
                Err(e) => {
                    return Err(e);
                },
            }
            i = i + 1;
        }
        if entries.len() == usize::MAX {
            return Err(CalcError::Internal(String::from_str("too many participants")));
        }
        let results = rank_results(&entries, &scores);
        proof {
            assert(usize::MAX <= u64::MAX);
            lemma_results_presentation(entries@, scores@);
        }
        Ok((EventResult { event_name, results }, subjects, payloads))
    }

    /// Check every reference an event stage reads, without running any
    /// script.
    fn check_event_stage(&self, ce: &CompetitionEvent) -> (r: Result<(), CalcError>)
        ensures
            r matches Err(e) ==> e is NotFound,
            (r is Err) <==> !spec_event_stage_ok(self.dataset(), *ce),
    {
        if self.find_event_name(ce.event_id).is_none() {
            return Err(CalcError::NotFound(String::from_str("event")));
        }
        match resolve_calculator(
            &self.data.score_calculators,
            ce.score_calculator,
            &self.default_calculator,
        ) {
            Ok(_) => (),
            Err(e) => {
                return Err(e);
            },
        }
        match self.event_participants(ce) {
            Ok(_) => (),
            Err(e) => {
                return Err(e);
            },
        }
        if ce.id.is_none() {
            return Err(CalcError::NotFound(String::from_str("competition event")));
        }
        Ok(())
    }

    /// Compute one competition event's ranked results afresh from the
    /// snapshot.
    pub fn compute_event_results(&self, competition_event_id: u128) -> (r: Result<
        EventResult,
        CalcError,
    >)
        ensures
            r matches Err(e) ==> fatal_error(e),
            (r matches Err(e) && e is NotFound) <==> !({
                &&& spec_find_ce(self.dataset().competition_events@, competition_event_id)
                    is Some
                &&& spec_event_stage_ok(
                    self.dataset(),
                    spec_find_ce(
                        self.dataset().competition_events@,
                        competition_event_id,
                    )->0,
                )
            }),
            ({
                &&& spec_find_ce(self.dataset().competition_events@, competition_event_id)
                    is Some
                &&& spec_event_stage_ok(
                    self.dataset(),
                    spec_find_ce(
                        self.dataset().competition_events@,
                        competition_event_id,
                    )->0,
                )
                &&& spec_no_participants(
                    self.dataset(),
                    spec_find_sc(
                        self.dataset().season_competitions@,
                        spec_find_ce(
                            self.dataset().competition_events@,
                            competition_event_id,
                        )->0.season_competition_id,
                    )->0.season_id,
                )
            }) ==> r is Ok,
            r matches Ok(er) ==> results_presented(er.results@) && er.event_name@
                == spec_find_event(
                self.dataset().events@,
                spec_find_ce(
                    self.dataset().competition_events@,
                    competition_event_id,
                )->0.event_id,
            )->0.name@,
    {
        let ce = match self.find_competition_event(competition_event_id) {
            Some(x) => x,
            None => {
                return Err(CalcError::NotFound(String::from_str("competition event")));
            },
        };
        match self.run_event_stage(ce) {
            Ok((er, _, _)) => Ok(er),
            Err(e) => Err(e),
        }
    }

    /// Stage two for one season-competition: roll the event payloads up per
    /// subject, score and rank, and keep the season payloads. Every
    /// reference of the stage and of its enabled events is checked before
    /// any script runs, so `NotFound` comes exactly when one is broken, and
    /// a reference-intact stage with no participants anywhere succeeds
    /// without running a script.
    fn run_competition_stage(&self, sc: &SeasonCompetition) -> (r: Result<
        (CompetitionResult, Vec<(ScoreType, u128)>, Vec<Datum>),
        CalcError,
    >)
        ensures
            r matches Ok(t) ==> t.1@.len() == t.2@.len(),
            r matches Err(e) ==> fatal_error(e),
            (r matches Err(e) && e is NotFound) <==> !spec_competition_stage_ok(
                self.dataset(),
                *sc,
            ),
            (spec_competition_stage_ok(self.dataset(), *sc) && spec_competition_no_participants(
                self.dataset(),
                *sc,
            )) ==> r is Ok,
            r matches Ok(t) ==> results_presented(t.0.results@) && (forall|k: int|
                0 <= k < t.0.events@.len() ==> results_presented(
                    (#[trigger] t.0.events@[k]).results@,
                )) && t.0.competition_name@ == spec_find_competition(
                self.dataset().competitions@,
                sc.competition_id,
            )->0.name@,
    {
        let competition_name = match self.find_competition_name(sc.competition_id) {
            Some(n) => n,
            None => {
                return Err(CalcError::NotFound(String::from_str("competition")));
            },
        };
        let sc_id = match sc.id {
            Some(x) => x,
            None => {
                return Err(CalcError::NotFound(String::from_str("season competition")));
            },
        };
        let cal = match resolve_calculator(
            &self.data.score_calculators,
            sc.score_calculator,
            &self.default_calculator,
        ) {
            Ok(c) => c,
            Err(e) => {
                return Err(e);
            },
        };
        let config = merge_config(&cal.default_config, &sc.calculator_config);
        // Stage-two participants: teams and group participations together.
        let team_parts = match self.season_participants(sc.season_id, ScoreType::Team) {
            Ok(p) => p,
            Err(e) => {
                return Err(e);
            },
        };
        let gp_parts = match self.season_participants(sc.season_id, ScoreType::Group) {
            Ok(p) => p,
            Err(e) => {
                return Err(e);
            },
        };
        // Check every enabled event's references before any script runs.
        let ces = &self.data.competition_events;
        let mut c: usize = 0;
        while c < ces.len()
            invariant
                c <= ces@.len(),
                ces == self.dataset().competition_events,
                forall|t: int|
                    0 <= t < c ==> {
                        let ce = #[trigger] ces@[t];
                        (ce.enabled && ce.season_competition_id == sc_id) ==> spec_event_stage_ok(
                            self.dataset(),
                            ce,
                        )
                    },
            decreases ces@.len() - c,
        {
            let ce = &ces[c];
            if ce.enabled && ce.season_competition_id == sc_id {
                match self.check_event_stage(ce) {
                    Ok(()) => (),
                    Err(e) => {
                        proof {
                            assert(!spec_events_ok(self.dataset(), sc_id)) by {
                                assert(0 <= c < ces@.len() && ces@[c as int].enabled
                                    && ces@[c as int].season_competition_id == sc_id
                                    && !spec_event_stage_ok(self.dataset(), ces@[c as int]));
                            }
                        }
                        return Err(e);
                    },
                }
            }
            c = c + 1;
        }
        // Stage one over every enabled event, in stored enumeration order.
        let mut event_results: Vec<EventResult> = Vec::new();
        let mut event_subjects: Vec<Vec<(ScoreType, u128)>> = Vec::new();
        let mut event_payloads: Vec<Vec<Datum>> = Vec::new();
        let mut i: usize = 0;
        while i < ces.len()
            invariant
                i <= ces@.len(),
                ces == self.dataset().competition_events,
                spec_events_ok(self.dataset(), sc_id),
                spec_groups_ok(self.dataset(), sc.season_id),
                spec_find_competition(self.dataset().competitions@, sc.competition_id) is Some,
                spec_calculator_ok(self.dataset(), sc.score_calculator),
                event_subjects@.len() == event_payloads@.len(),
                forall|t: int|
                    0 <= t < event_subjects@.len() ==> (#[trigger] event_subjects@[t])@.len()
                        == event_payloads@[t]@.len(),
                forall|t: int|
                    0 <= t < event_results@.len() ==> results_presented(
                        (#[trigger] event_results@[t]).results@,
                    ),
            decreases ces@.len() - i,
        {
            let ce = &ces[i];
            if ce.enabled && ce.season_competition_id == sc_id {
                match self.run_event_stage(ce) {
                    Ok((er, subjects, payloads)) => {
                        event_results.push(er);
                        event_subjects.push(subjects);
                        event_payloads.push(payloads);
                    },
                    Err(e) => {
                        return Err(e);
                    },
                }
            }
            i = i + 1;
        }
        let mut entries: Vec<ScoreResult> = Vec::new();
        let mut scores: Vec<Option<Decimal>> = Vec::new();
        let mut subjects: Vec<(ScoreType, u128)> = Vec::new();
        let mut payloads: Vec<Datum> = Vec::new();
        let mut t: usize = 0;
        while t < team_parts.len()
            invariant
                t <= team_parts@.len(),
                entries@.len() == scores@.len(),
                entries@.len() == t,
                subjects@.len() == payloads@.len(),
                event_subjects@.len() == event_payloads@.len(),
                forall|q: int|
                    0 <= q < event_subjects@.len() ==> (#[trigger] event_subjects@[q])@.len()
                        == event_payloads@[q]@.len(),
            decreases team_parts@.len() - t,
        {
            let (kind, subject_id, _) = &team_parts[t];
            let data = collect_payloads(&event_subjects, &event_payloads, *kind, *subject_id);
            let outcome = isolate_subject(
                self.score_data_subject(
                    cal,
                    &config,
                    "calculate_competition_scores",
                    "competition_score",
                    Some("season_data"),
                    *subject_id,
                    data,
                ),
            );
            match outcome {
                Ok((score, payload)) => {
                    entries.push(with_rank(&team_parts[t].2, None));
                    scores.push(score);
                    subjects.push((*kind, *subject_id));
                    payloads.push(payload);
                },
                Err(e) => {
                    return Err(e);
                },
            }
            t = t + 1;
        }
        let mut g: usize = 0;
        while g < gp_parts.len()
            invariant
                g <= gp_parts@.len(),
                entries@.len() == scores@.len(),
                entries@.len() == team_parts@.len() + g,
                subjects@.len() == payloads@.len(),
                event_subjects@.len() == event_payloads@.len(),
                forall|q: int|
                    0 <= q < event_subjects@.len() ==> (#[trigger] event_subjects@[q])@.len()
                        == event_payloads@[q]@.len(),
            decreases gp_parts@.len() - g,
        {
            let (kind, subject_id, _) = &gp_parts[g];
            let data = self.collect_group_payloads(
                &event_subjects,
                &event_payloads,
                *subject_id,
            );
            let outcome = isolate_subject(
                self.score_data_subject(
                    cal,
                    &config,
                    "calculate_competition_scores",
                    "competition_score",
                    Some("season_data"),
                    *subject_id,
                    data,
                ),
            );
            match outcome {
                Ok((score, payload)) => {
                    entries.push(with_rank(&gp_parts[g].2, None));
                    scores.push(score);
                    subjects.push((*kind, *subject_id));
                    payloads.push(payload);
                },
                Err(e) => {
                    return Err(e);
                },
            }
            g = g + 1;
        }
        if entries.len() == usize::MAX {
            return Err(CalcError::Internal(String::from_str("too many participants")));
        }
        let results = rank_results(&entries, &scores);
        proof {
            assert(usize::MAX <= u64::MAX);
            lemma_results_presentation(entries@, scores@);
        }
        Ok(
            (
                CompetitionResult { competition_name, results, events: event_results },
                subjects,
                payloads,
            ),
        )
    }

    /// Check every reference a competition stage and its enabled events
    /// read, without running any script.
    fn check_competition_stage(&self, sc: &SeasonCompetition) -> (r: Result<(), CalcError>)
        ensures
            r matches Err(e) ==> e is NotFound,
            (r is Err) <==> !spec_competition_stage_ok(self.dataset(), *sc),
    {
        if self.find_competition_name(sc.competition_id).is_none() {
            return Err(CalcError::NotFound(String::from_str("competition")));
        }
        let sc_id = match sc.id {
            Some(x) => x,
            None => {
                return Err(CalcError::NotFound(String::from_str("season competition")));
            },
        };
        match resolve_calculator(
            &self.data.score_calculators,
            sc.score_calculator,
            &self.default_calculator,
        ) {
            Ok(_) => (),
            Err(e) => {
                return Err(e);
            },
        }
        match self.season_participants(sc.season_id, ScoreType::Group) {
            Ok(_) => (),
            Err(e) => {
                return Err(e);
            },
        }
        let ces = &self.data.competition_events;
        let mut c: usize = 0;
        while c < ces.len()
            invariant
                c <= ces@.len(),
                ces == self.dataset().competition_events,
                forall|t: int|
                    0 <= t < c ==> {
                        let ce = #[trigger] ces@[t];
                        (ce.enabled && ce.season_competition_id == sc_id) ==> spec_event_stage_ok(
                            self.dataset(),
                            ce,
                        )
                    },
            decreases ces@.len() - c,
        {
            let ce = &ces[c];
            if ce.enabled && ce.season_competition_id == sc_id {
                match self.check_event_stage(ce) {
                    Ok(()) => (),
                    Err(e) => {
                        proof {
                            assert(!spec_events_ok(self.dataset(), sc_id)) by {
                                assert(0 <= c < ces@.len() && ces@[c as int].enabled
                                    && ces@[c as int].season_competition_id == sc_id
                                    && !spec_event_stage_ok(self.dataset(), ces@[c as int]));
                            }
                        }
                        return Err(e);
                    },
                }
            }
            c = c + 1;
        }
        Ok(())
    }

    /// Compute one season-competition's ranked results, with its events'.
    pub fn compute_competition_results(&self, season_competition_id: u128) -> (r: Result<
        CompetitionResult,
        CalcError,
    >)
        ensures
            r matches Err(e) ==> fatal_error(e),
            (r matches Err(e) && e is NotFound) <==> !({
                &&& spec_find_sc(self.dataset().season_competitions@, season_competition_id)
                    is Some
                &&& spec_competition_stage_ok(
                    self.dataset(),
                    spec_find_sc(
                        self.dataset().season_competitions@,
                        season_competition_id,
                    )->0,
                )
            }),
            ({
                &&& spec_find_sc(self.dataset().season_competitions@, season_competition_id)
                    is Some
                &&& spec_competition_stage_ok(
                    self.dataset(),
                    spec_find_sc(
                        self.dataset().season_competitions@,
                        season_competition_id,
                    )->0,
                )
                &&& spec_competition_no_participants(
                    self.dataset(),
                    spec_find_sc(
                        self.dataset().season_competitions@,
                        season_competition_id,
                    )->0,
                )
            }) ==> r is Ok,
            r matches Ok(cr) ==> results_presented(cr.results@) && (forall|k: int|
                0 <= k < cr.events@.len() ==> results_presented(
                    (#[trigger] cr.events@[k]).results@,
                )) && cr.competition_name@ == spec_find_competition(
                self.dataset().competitions@,
                spec_find_sc(
                    self.dataset().season_competitions@,
                    season_competition_id,
                )->0.competition_id,
            )->0.name@,
    {
        let sc = match self.find_season_competition(season_competition_id) {
            Some(x) => x,
            None => {
                return Err(CalcError::NotFound(String::from_str("season competition")));
            },
        };
        match self.run_competition_stage(sc) {
            Ok((cr, _, _)) => Ok(cr),
            Err(e) => Err(e),
        }
    }

    /// The payloads one group participation rolls up: per stage below, its
    /// own payload, then every enabled team's, in stored team order — the
    /// group participates as a whole, so no team's data is omitted. See
    /// `spec_group_payloads`.
    fn collect_group_payloads(
        &self,
        stage_subjects: &Vec<Vec<(ScoreType, u128)>>,
        stage_payloads: &Vec<Vec<Datum>>,
        gp_id: u128,
    ) -> (r: Vec<Datum>)
        requires
            stage_subjects@.len() == stage_payloads@.len(),
            forall|q: int|
                0 <= q < stage_subjects@.len() ==> (#[trigger] stage_subjects@[q])@.len()
                    == stage_payloads@[q]@.len(),
        ensures
            datums_view(r@) == spec_group_payloads(
                self.dataset().teams@,
                stage_subject_views(stage_subjects@),
                stage_payload_views(stage_payloads@),
                gp_id,
                stage_subjects@.len() as int,
            ),
    {
        let ghost tview = self.dataset().teams@;
        let ghost sviews = stage_subject_views(stage_subjects@);
        let ghost pviews = stage_payload_views(stage_payloads@);
        let mut out: Vec<Datum> = Vec::new();
        proof {
            assert(datums_view(out@) =~= spec_group_payloads(tview, sviews, pviews, gp_id, 0));
        }
        let mut e: usize = 0;
        while e < stage_subjects.len()
            invariant
                e <= stage_subjects@.len(),
                stage_subjects@.len() == stage_payloads@.len(),
                tview == self.dataset().teams@,
                sviews == stage_subject_views(stage_subjects@),
                pviews == stage_payload_views(stage_payloads@),
                forall|q: int|
                    0 <= q < stage_subjects@.len() ==> (#[trigger] stage_subjects@[q])@.len()
                        == stage_payloads@[q]@.len(),
                datums_view(out@) =~= spec_group_payloads(tview, sviews, pviews, gp_id, e as int),
            decreases stage_subjects@.len() - e,
        {
            let ghost base = spec_group_payloads(tview, sviews, pviews, gp_id, e as int);
            proof {
                assert(sviews[e as int] == stage_subjects@[e as int]@);
                assert(pviews[e as int] == datums_view(stage_payloads@[e as int]@));
            }
            match find_payload(&stage_subjects[e], &stage_payloads[e], ScoreType::Group, gp_id) {
                Some(p) => {
                    let c = p.deep_clone();
                    out.push(c);
                },
                None => (),
            }
            proof {
                assert(datums_view(out@) =~= base + opt_payload_seq(
                    spec_find_payload(
                        sviews[e as int],
                        pviews[e as int],
                        ScoreType::Group,
                        gp_id,
                        0,
                    ),
                ));
            }
            let ghost mid = datums_view(out@);
            let teams = &self.data.teams;
            let mut t: usize = 0;
            while t < teams.len()
                invariant
                    t <= teams@.len(),
                    teams == self.dataset().teams,
                    tview == self.dataset().teams@,
                    sviews == stage_subject_views(stage_subjects@),
                    pviews == stage_payload_views(stage_payloads@),
                    e < stage_subjects@.len(),
                    stage_subjects@.len() == stage_payloads@.len(),
                    forall|q: int|
                        0 <= q < stage_subjects@.len() ==> (#[trigger] stage_subjects@[q])@.len()
                            == stage_payloads@[q]@.len(),
                    datums_view(out@) =~= mid + spec_group_team_payloads(
                        tview,
                        sviews[e as int],
                        pviews[e as int],
                        gp_id,
                        t as int,
                    ),
                decreases teams@.len() - t,
            {
                let team = &teams[t];
                let team_id = match team.id {
                    Some(x) => x,
                    None => {
                        t = t + 1;
                        proof {
                            assert(datums_view(out@) =~= mid + spec_group_team_payloads(
                                tview,
                                sviews[e as int],
                                pviews[e as int],
                                gp_id,
                                t as int,
                            ));
                        }
                        continue ;
                    },
                };
                if team.enabled && team.group_participation_id == gp_id {
                    let ghost opre = datums_view(out@);
                    proof {
                        assert(sviews[e as int] == stage_subjects@[e as int]@);
                        assert(pviews[e as int] == datums_view(stage_payloads@[e as int]@));
                        assert(tview[t as int] == teams@[t as int]);
                    }
                    match find_payload(
                        &stage_subjects[e],
                        &stage_payloads[e],
                        ScoreType::Team,
                        team_id,
                    ) {
                        Some(p) => {
                            let c = p.deep_clone();
                            let ghost cdv = c.dv();
                            proof {
                                assert(spec_find_payload(
                                    sviews[e as int],
                                    pviews[e as int],
                                    ScoreType::Team,
                                    tview[t as int].id->0,
                                    0,
                                ) == Some(cdv));
                            }
                            out.push(c);
                            proof {
                                assert(datums_view(out@) =~= opre.push(cdv));
                            }
                        },
                        None => (),
                    }
                }
                t = t + 1;
                proof {
                    assert(datums_view(out@) =~= mid + spec_group_team_payloads(
                        tview,
                        sviews[e as int],
                        pviews[e as int],
                        gp_id,
                        t as int,
                    ));
                }
            }
            e = e + 1;
            proof {
                assert(datums_view(out@) =~= spec_group_payloads(
                    tview,
                    sviews,
                    pviews,
                    gp_id,
                    e as int,
                ));
            }
        }
        out
    }

    /// Compute one season's ranked results, with its competitions' and their
    /// events' results nested below.
    pub fn compute_season_results(&self, season_id: u128) -> (r: Result<SeasonResult, CalcError>)
        ensures
            r matches Err(e) ==> fatal_error(e),
            (r matches Err(e) && e is NotFound) <==> !spec_season_ok(self.dataset(), season_id),
            (spec_season_ok(self.dataset(), season_id) && spec_season_no_participants(
                self.dataset(),
                season_id,
            )) ==> r is Ok,
            r matches Ok(sr) ==> results_presented(sr.results@) && (forall|k: int|
                0 <= k < sr.competitions@.len() ==> results_presented(
                    (#[trigger] sr.competitions@[k]).results@,
                )) && (forall|k: int, e: int|
                0 <= k < sr.competitions@.len() && 0 <= e < (
                #[trigger] sr.competitions@[k]).events@.len() ==> results_presented(
                    (#[trigger] sr.competitions@[k].events@[e]).results@,
                )) && sr.season_name@ == spec_find_season(
                self.dataset().seasons@,
                season_id,
            )->0.name@,
    {
        let season = match self.find_season(season_id) {
            Some(x) => x,
            None => {
                return Err(CalcError::NotFound(String::from_str("season")));
            },
        };
        let cal = match resolve_calculator(
            &self.data.score_calculators,
            season.score_calculator,
            &self.default_calculator,
        ) {
            Ok(c) => c,
            Err(e) => {
                return Err(e);
            },
        };
        let config = merge_config(&cal.default_config, &season.calculator_config);
        // Stage three's participants double as the season's reference check
        // on its groups, before any script runs.
        let gp_parts = match self.season_participants(season_id, ScoreType::Group) {
            Ok(p) => p,
            Err(e) => {
                return Err(e);
            },
        };
        // Check every enabled season-competition's references, and those of
        // their events, before any script runs.
        let scs = &self.data.season_competitions;
        let mut c: usize = 0;
        while c < scs.len()
            invariant
                c <= scs@.len(),
                scs == self.dataset().season_competitions,
                forall|t: int|
                    0 <= t < c ==> {
                        let sc = #[trigger] scs@[t];
                        (sc.enabled && sc.season_id == season_id) ==> spec_competition_stage_ok(
                            self.dataset(),
                            sc,
                        )
                    },
            decreases scs@.len() - c,
        {
            let sc = &scs[c];
            if sc.enabled && sc.season_id == season_id {
                match self.check_competition_stage(sc) {
                    Ok(()) => (),
                    Err(e) => {
                        proof {
                            assert(!spec_season_ok(self.dataset(), season_id)) by {
                                assert(0 <= c < scs@.len() && scs@[c as int].enabled
                                    && scs@[c as int].season_id == season_id
                                    && !spec_competition_stage_ok(
                                    self.dataset(),
                                    scs@[c as int],
                                ));
                            }
                        }
                        return Err(e);
                    },
                }
            }
            c = c + 1;
        }
        // Stage two over every enabled season-competition, in stored order.
        let mut competition_results: Vec<CompetitionResult> = Vec::new();
        let mut stage_subjects: Vec<Vec<(ScoreType, u128)>> = Vec::new();
        let mut stage_payloads: Vec<Vec<Datum>> = Vec::new();
        let mut i: usize = 0;
        while i < scs.len()
            invariant
                i <= scs@.len(),
                scs == self.dataset().season_competitions,
                spec_find_season(self.dataset().seasons@, season_id) is Some,
                spec_calculator_ok(
                    self.dataset(),
                    spec_find_season(self.dataset().seasons@, season_id)->0.score_calculator,
                ),
                spec_groups_ok(self.dataset(), season_id),
                forall|t: int|
                    0 <= t < scs@.len() ==> {
                        let sc = #[trigger] scs@[t];
                        (sc.enabled && sc.season_id == season_id) ==> spec_competition_stage_ok(
                            self.dataset(),
                            sc,
                        )
                    },
                stage_subjects@.len() == stage_payloads@.len(),
                forall|q: int|
                    0 <= q < stage_subjects@.len() ==> (#[trigger] stage_subjects@[q])@.len()
                        == stage_payloads@[q]@.len(),
                forall|t: int|
                    0 <= t < competition_results@.len() ==> results_presented(
                        (#[trigger] competition_results@[t]).results@,
                    ),
                forall|t: int, e: int|
                    0 <= t < competition_results@.len() && 0 <= e < (
                    #[trigger] competition_results@[t]).events@.len() ==> results_presented(
                        (#[trigger] competition_results@[t].events@[e]).results@,
                    ),
            decreases scs@.len() - i,
        {
            let sc = &scs[i];
            if sc.enabled && sc.season_id == season_id {
                match self.run_competition_stage(sc) {
                    Ok((cr, subjects, payloads)) => {
                        competition_results.push(cr);
                        stage_subjects.push(subjects);
                        stage_payloads.push(payloads);
                    },
                    Err(e) => {
                        return Err(e);
                    },
                }
            }
            i = i + 1;
        }
        let mut entries: Vec<ScoreResult> = Vec::new();
        let mut scores: Vec<Option<Decimal>> = Vec::new();
        let mut g: usize = 0;
        while g < gp_parts.len()
            invariant
                g <= gp_parts@.len(),
                entries@.len() == scores@.len(),
                entries@.len() == g,
                stage_subjects@.len() == stage_payloads@.len(),
                forall|q: int|
                    0 <= q < stage_subjects@.len() ==> (#[trigger] stage_subjects@[q])@.len()
                        == stage_payloads@[q]@.len(),
            decreases gp_parts@.len() - g,
        {
            let (_, subject_id, _) = &gp_parts[g];
            let data = self.collect_group_payloads(&stage_subjects, &stage_payloads, *subject_id);
            let outcome = isolate_subject(
                self.score_data_subject(
                    cal,
                    &config,
                    "calculate_season_scores",
                    "season_score",
                    None,
                    *subject_id,
                    data,
                ),
            );
            match outcome {
                Ok((score, _)) => {
                    entries.push(with_rank(&gp_parts[g].2, None));
                    scores.push(score);
                },
                Err(e) => {
                    return Err(e);
                },
            }
            g = g + 1;
        }
        if entries.len() == usize::MAX {
            return Err(CalcError::Internal(String::from_str("too many participants")));
        }
        let results = rank_results(&entries, &scores);
        proof {
            assert(usize::MAX <= u64::MAX);
            lemma_results_presentation(entries@, scores@);
        }
        Ok(
            SeasonResult {
                season_name: season.name.clone(),
                results,
                competitions: competition_results,
            },
        )
    }

    /// Score one team for one competition event, returning its event score
    /// and the opaque payload for the competition level.
    pub fn calculate_team_event_score(&self, competition_event_id: u128, team_id: u128) -> (r:
        Result<(Option<Decimal>, Datum), CalcError>)
        ensures
            r matches Err(e) ==> !(e is DivisionByZero),
            (r matches Err(e) && e is NotFound) <==> !({
                &&& spec_find_ce(self.dataset().competition_events@, competition_event_id)
                    is Some
                &&& spec_calculator_ok(
                    self.dataset(),
                    spec_find_ce(
                        self.dataset().competition_events@,
                        competition_event_id,
                    )->0.score_calculator,
                )
            }),
    {
        let ce = match self.find_competition_event(competition_event_id) {
            Some(x) => x,
            None => {
                return Err(CalcError::NotFound(String::from_str("competition event")));
            },
        };
        let cal = match resolve_calculator(
            &self.data.score_calculators,
            ce.score_calculator,
            &self.default_calculator,
        ) {
            Ok(c) => c,
            Err(e) => {
                return Err(e);
            },
        };
        let config = merge_config(&cal.default_config, &ce.calculator_config);
        self.score_event_subject(cal, &config, competition_event_id, ScoreType::Team, team_id)
    }

    /// Score one group participation for one competition event.
    pub fn calculate_group_event_score(
        &self,
        competition_event_id: u128,
        group_participation_id: u128,
    ) -> (r: Result<(Option<Decimal>, Datum), CalcError>)
        ensures
            r matches Err(e) ==> !(e is DivisionByZero),
            (r matches Err(e) && e is NotFound) <==> !({
                &&& spec_find_ce(self.dataset().competition_events@, competition_event_id)
                    is Some
                &&& spec_calculator_ok(
                    self.dataset(),
                    spec_find_ce(
                        self.dataset().competition_events@,
                        competition_event_id,
                    )->0.score_calculator,
                )
            }),
    {
        let ce = match self.find_competition_event(competition_event_id) {
            Some(x) => x,
            None => {
                return Err(CalcError::NotFound(String::from_str("competition event")));
            },
        };
        let cal = match resolve_calculator(
            &self.data.score_calculators,
            ce.score_calculator,
            &self.default_calculator,
        ) {
            Ok(c) => c,
            Err(e) => {
                return Err(e);
            },
        };
        let config = merge_config(&cal.default_config, &ce.calculator_config);
        self.score_event_subject(
            cal,
            &config,
            competition_event_id,
            ScoreType::Group,
            group_participation_id,
        )
    }

    /// Score one team for one season-competition from the event payloads.
    pub fn calculate_team_competition_score(
        &self,
        season_competition_id: u128,
        team_id: u128,
        event_values: &Vec<Datum>,
    ) -> (r: Result<(Option<Decimal>, Datum), CalcError>)
        ensures
            r matches Err(e) ==> !(e is DivisionByZero),
            (r matches Err(e) && e is NotFound) <==> !({
                &&& spec_find_sc(self.dataset().season_competitions@, season_competition_id)
                    is Some
                &&& spec_calculator_ok(
                    self.dataset(),
                    spec_find_sc(
                        self.dataset().season_competitions@,
                        season_competition_id,
                    )->0.score_calculator,
                )
            }),
    {
        let sc = match self.find_season_competition(season_competition_id) {
            Some(x) => x,
            None => {
                return Err(CalcError::NotFound(String::from_str("season competition")));
            },
        };
        let cal = match resolve_calculator(
            &self.data.score_calculators,
            sc.score_calculator,
            &self.default_calculator,
        ) {
            Ok(c) => c,
            Err(e) => {
                return Err(e);
            },
        };
        let config = merge_config(&cal.default_config, &sc.calculator_config);
        let data = clone_datums(event_values);
        self.score_data_subject(
            cal,
            &config,
            "calculate_competition_scores",
            "competition_score",
            Some("season_data"),
            team_id,
            data,
        )
    }

    /// Score one group participation for one season-competition.
    pub fn calculate_group_competition_score(
        &self,
        season_competition_id: u128,
        group_participation_id: u128,
        event_values: &Vec<Datum>,
    ) -> (r: Result<(Option<Decimal>, Datum), CalcError>)
        ensures
            r matches Err(e) ==> !(e is DivisionByZero),
            (r matches Err(e) && e is NotFound) <==> !({
                &&& spec_find_sc(self.dataset().season_competitions@, season_competition_id)
                    is Some
                &&& spec_calculator_ok(
                    self.dataset(),
                    spec_find_sc(
                        self.dataset().season_competitions@,
                        season_competition_id,
                    )->0.score_calculator,
                )
            }),
    {
        let sc = match self.find_season_competition(season_competition_id) {
            Some(x) => x,
            None => {
                return Err(CalcError::NotFound(String::from_str("season competition")));
            },
        };
        let cal = match resolve_calculator(
            &self.data.score_calculators,
            sc.score_calculator,
            &self.default_calculator,
        ) {
            Ok(c) => c,
            Err(e) => {
                return Err(e);
            },
        };
        let config = merge_config(&cal.default_config, &sc.calculator_config);
        let data = clone_datums(event_values);
        self.score_data_subject(
            cal,
            &config,
            "calculate_competition_scores",
            "competition_score",
            Some("season_data"),
            group_participation_id,
            data,
        )
    }

    /// Score one group participation for one season from the competition
    /// payloads.
    pub fn calculate_group_season_score(
        &self,
        season_id: u128,
        group_participation_id: u128,
        competition_values: &Vec<Datum>,
    ) -> (r: Result<Option<Decimal>, CalcError>)
        ensures
            r matches Err(e) ==> !(e is DivisionByZero),
            (r matches Err(e) && e is NotFound) <==> !({
                &&& spec_find_season(self.dataset().seasons@, season_id) is Some
                &&& spec_calculator_ok(
                    self.dataset(),
                    spec_find_season(self.dataset().seasons@, season_id)->0.score_calculator,
                )
            }),
    {
        let season = match self.find_season(season_id) {
            Some(x) => x,
            None => {
                return Err(CalcError::NotFound(String::from_str("season")));
            },
        };
        let cal = match resolve_calculator(
            &self.data.score_calculators,
            season.score_calculator,
            &self.default_calculator,
        ) {
            Ok(c) => c,
            Err(e) => {
                return Err(e);
            },
        };
        let config = merge_config(&cal.default_config, &season.calculator_config);
        let data = clone_datums(competition_values);
        match self.score_data_subject(
            cal,
            &config,
            "calculate_season_scores",
            "season_score",
            None,
            group_participation_id,
            data,
        ) {
            Ok((score, _)) => Ok(score),
            Err(e) => Err(e),
        }
    }
}

/// Copies of a payload list, equal value for value.
fn clone_datums(values: &Vec<Datum>) -> (r: Vec<Datum>)
    ensures
        datums_view(r@) == datums_view(values@),
{
    let mut out: Vec<Datum> = Vec::new();
    let mut i: usize = 0;
    while i < values.len()
        invariant
            i <= values@.len(),
            out@.len() == i,
            forall|t: int| 0 <= t < i ==> (#[trigger] out@[t]).dv() == values@[t].dv(),
        decreases values@.len() - i,
    {
        out.push(values[i].deep_clone());
        i = i + 1;
    }
    proof {
        assert(datums_view(out@) =~= datums_view(values@));
    }
    out
}

} // verus!
