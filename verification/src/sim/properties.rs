//! White-box property evaluation over a finished run: the verdict of each
//! property from whether its predicate held in each recorded frame.

use std::time::Duration;
use vstd::prelude::*;

use crate::duration::{duration_nanos, max_duration_nanos, nanos_of};
use crate::oracle::{Anomaly, NamedVerdict, Verdict, Witness};
use crate::property::{Event, PropertyKind};
use crate::sim::scheduler::RunEvent;
use crate::text::{push_str, string_of};

verus! {

/// The text `format!("{:?}", d)` gives for a duration.
pub uninterp spec fn duration_debug(d: Duration) -> Seq<char>;

/// The text `format!("{:?}", s)` gives for a string (quoted and escaped).
pub uninterp spec fn str_debug(s: Seq<char>) -> Seq<char>;

/// `Debug` for `Duration`: its text.
#[verifier::external_body]
fn debug_duration(d: Duration) -> (s: String)
    ensures
        s@ == duration_debug(d),
{
    format!("{:?}", d)
}

/// `Debug` for `str`: its quoted, escaped text.
#[verifier::external_body]
fn debug_str(t: &str) -> (s: String)
    ensures
        s@ == str_debug(t@),
{
    format!("{:?}", t)
}

/// The virtual time (nanoseconds) of the first run event of the kind
/// `want` names, or zero.
pub open spec fn first_event_nanos(events: Seq<RunEvent>, want: Event) -> int
    decreases events.len(),
{
    if events.len() == 0 {
        0
    } else {
        match (want, events[0]) {
            (Event::NetworkHealed, RunEvent::NetworkHealed(t)) => duration_nanos(t) as int,
            (Event::NodeRejoined, RunEvent::NodeRejoined(t, _)) => duration_nanos(t) as int,
            _ => first_event_nanos(events.drop_first(), want),
        }
    }
}

/// The anchor of a bounded-liveness deadline: the time of the first run
/// event that `after` names, or zero for "from the start" (and when the
/// named event never occurred).
pub open spec fn anchor_nanos(after: Option<Event>, events: Seq<RunEvent>) -> int {
    match after {
        None => 0,
        Some(e) => first_event_nanos(events, e),
    }
}

/// Resolve the anchor time for a bounded-liveness deadline.
pub fn anchor_time(after: Option<&Event>, events: &Vec<RunEvent>) -> (d: Duration)
    ensures
        duration_nanos(d) == anchor_nanos(
            match after {
                Some(e) => Some(*e),
                None => None,
            },
            events@,
        ),
{
    let event = match after {
        None => {
            return crate::duration::duration_of_nanos(0);
        },
        Some(e) => e,
    };
    let ghost es = events@;
    let mut i: usize = 0;
    assert(es.skip(0) =~= es);
    while i < events.len()
        invariant
            i <= events.len(),
            es == events@,
            after == Some(event),
            first_event_nanos(es, *event) == first_event_nanos(es.skip(i as int), *event),
        decreases events.len() - i,
    {
        assert(es.skip(i as int)[0] == es[i as int]);
        assert(es.skip(i as int).drop_first() =~= es.skip(i + 1));
        match (event, &events[i]) {
            (Event::NetworkHealed, RunEvent::NetworkHealed(t)) => {
                assert(events@[i as int] == RunEvent::NetworkHealed(*t));
                return *t;
            },
            (Event::NodeRejoined, RunEvent::NodeRejoined(t, n)) => {
                assert(events@[i as int] == RunEvent::NodeRejoined(*t, *n));
                return *t;
            },
            _ => {},
        }
        i = i + 1;
    }
    crate::duration::duration_of_nanos(0)
}

/// One property's per-frame results: its name, flavor and deadline anchor,
/// and for each recorded frame the frame's virtual time and whether the
/// predicate held there.
pub struct PropertyOutcome {
    pub name: String,
    pub kind: PropertyKind,
    pub after: Option<Event>,
    pub frames: Vec<(Duration, bool)>,
}

/// The `Debug` text of an optional event.
pub open spec fn event_debug(e: Option<Event>) -> Seq<char> {
    match e {
        None => "None"@,
        Some(Event::NetworkHealed) => "Some(NetworkHealed)"@,
        Some(Event::NodeRejoined) => "Some(NodeRejoined)"@,
        Some(Event::Custom(s)) => "Some(Custom("@ + str_debug(s@) + "))"@,
    }
}

/// The index of the first frame where the predicate failed, if any.
pub open spec fn first_failure(frames: Seq<(Duration, bool)>) -> Option<int> {
    if exists|i: int| 0 <= i < frames.len() && !(#[trigger] frames[i]).1 {
        Some(choose|i: int| 0 <= i < frames.len() && !(#[trigger] frames[i]).1 && forall|k: int| 0 <= k < i ==> (#[trigger] frames[k]).1)
    } else {
        None
    }
}

/// Whether the predicate held in some frame whose time lies in `lo..=hi`.
pub open spec fn held_within(frames: Seq<(Duration, bool)>, lo: int, hi: int) -> bool {
    exists|i: int| 0 <= i < frames.len() && (#[trigger] frames[i]).1 && lo <= duration_nanos(frames[i].0) <= hi
}

/// The detail of an invariant violation at `t`.
pub open spec fn violated_detail(name: Seq<char>, t: Duration) -> Seq<char> {
    "`"@ + name + "` false at t="@ + duration_debug(t)
}

/// The witness text of an invariant violation at `t`.
pub open spec fn violated_witness(name: Seq<char>, t: Duration) -> Seq<char> {
    "property `"@ + name + "` (always) violated at virtual t="@ + duration_debug(t)
}

/// The detail of an unmet reachability claim.
pub open spec fn unmet_detail(name: Seq<char>) -> Seq<char> {
    "`"@ + name + "` never held in any state"@
}

/// The detail of a missed deadline.
pub open spec fn missed_detail(name: Seq<char>, deadline: Duration, after: Option<Event>) -> Seq<char> {
    "`"@ + name + "` not satisfied within "@ + duration_debug(deadline) + " of "@ + event_debug(after)
        + " (virtual time)"@
}

/// Whether `v` fails with exactly one anomaly of kind `kind` and detail
/// `detail`.
pub open spec fn fails_with(v: Verdict, kind: Seq<char>, detail: Seq<char>) -> bool {
    &&& !v.valid
    &&& v.anomalies@.len() == 1
    &&& v.anomalies@[0].kind@ == kind
    &&& v.anomalies@[0].detail matches Some(d) && d@ == detail
}

/// Whether `v` carries the text witness `t`.
pub open spec fn witness_text(v: Verdict, t: Seq<char>) -> bool {
    match v.witness {
        Some(Witness::Text(w)) => w@ == t,
        _ => false,
    }
}

/// The verdict of one property.
pub open spec fn verdict_ok(p: PropertyOutcome, events: Seq<RunEvent>, v: Verdict) -> bool {
    let frames = p.frames@;
    let name = p.name@;
    match p.kind {
        PropertyKind::Always => match first_failure(frames) {
            None => v.valid && v.anomalies@.len() == 0 && v.witness is None,
            Some(i) => fails_with(v, "invariant-violated"@, violated_detail(name, frames[i].0))
                && witness_text(v, violated_witness(name, frames[i].0)),
        },
        PropertyKind::Sometimes => if exists|i: int| 0 <= i < frames.len() && (#[trigger] frames[i]).1 {
            v.valid && v.anomalies@.len() == 0 && v.witness is None
        } else {
            fails_with(v, "reachability-unmet"@, unmet_detail(name)) && v.witness is None
        },
        PropertyKind::EventuallyWithin { deadline } => {
            let lo = anchor_nanos(p.after, events);
            let hi = lo + duration_nanos(deadline);
            if held_within(frames, lo, hi) {
                v.valid && v.anomalies@.len() == 0 && witness_text(v, "deadline evaluated against virtual time"@)
            } else {
                fails_with(v, "deadline-exceeded"@, missed_detail(name, deadline, p.after)) && v.witness
                    is None
            }
        },
    }
}

/// The first index whose predicate failed, given that all before held.
proof fn lemma_first_failure(frames: Seq<(Duration, bool)>, i: int)
    requires
        0 <= i < frames.len(),
        !frames[i].1,
        forall|k: int| 0 <= k < i ==> (#[trigger] frames[k]).1,
    ensures
        first_failure(frames) == Some(i),
{
    let j = choose|j: int| 0 <= j < frames.len() && !(#[trigger] frames[j]).1 && forall|k: int| 0 <= k < j ==> (#[trigger] frames[k]).1;
    assert(0 <= j < frames.len() && !frames[j].1);
    if j < i {
        assert(frames[j].1);
    } else if j > i {
        assert(frames[i].1);
    }
}

/// Evaluate one property against its per-frame results.
pub fn evaluate_one(p: &PropertyOutcome, events: &Vec<RunEvent>) -> (v: Verdict)
    requires
        p.kind matches PropertyKind::EventuallyWithin { deadline } ==> anchor_nanos(p.after, events@)
            + duration_nanos(deadline) <= max_duration_nanos(),
    ensures
        verdict_ok(*p, events@, v),
{
    let ghost frames = p.frames@;
    let ghost name = p.name@;
    match &p.kind {
        PropertyKind::Always => {
            let mut i: usize = 0;
            while i < p.frames.len()
                invariant
                    i <= p.frames.len(),
                    frames == p.frames@,
                    name == p.name@,
                    p.kind == PropertyKind::Always,
                    forall|k: int| 0 <= k < i ==> (#[trigger] frames[k]).1,
                decreases p.frames.len() - i,
            {
                if !p.frames[i].1 {
                    proof {
                        lemma_first_failure(frames, i as int);
                    }
                    let t = debug_duration(p.frames[i].0);
                    let mut m: Vec<char> = Vec::new();
                    push_str(&mut m, "`");
                    push_str(&mut m, p.name.as_str());
                    push_str(&mut m, "` false at t=");
                    push_str(&mut m, t.as_str());
                    assert(m@ =~= violated_detail(name, frames[i as int].0));
                    let mut w: Vec<char> = Vec::new();
                    push_str(&mut w, "property `");
                    push_str(&mut w, p.name.as_str());
                    push_str(&mut w, "` (always) violated at virtual t=");
                    push_str(&mut w, t.as_str());
                    assert(w@ =~= violated_witness(name, frames[i as int].0));
                    let kind = string_of(&crate::text::chars_of("invariant-violated"));
                    let mut anomalies: Vec<Anomaly> = Vec::new();
                    anomalies.push(Anomaly::with_detail(kind, string_of(&m)));
                    return Verdict::invalid(anomalies).with_witness(Witness::Text(string_of(&w)));
                }
                i = i + 1;
            }
            Verdict::valid()
        },
        PropertyKind::Sometimes => {
            let mut i: usize = 0;
            while i < p.frames.len()
                invariant
                    i <= p.frames.len(),
                    frames == p.frames@,
                    name == p.name@,
                    p.kind == PropertyKind::Sometimes,
                    forall|k: int| 0 <= k < i ==> !(#[trigger] frames[k]).1,
                decreases p.frames.len() - i,
            {
                if p.frames[i].1 {
                    assert(frames[i as int].1);
                    return Verdict::valid();
                }
                i = i + 1;
            }
            let mut m: Vec<char> = Vec::new();
            push_str(&mut m, "`");
            push_str(&mut m, p.name.as_str());
            push_str(&mut m, "` never held in any state");
            assert(m@ =~= unmet_detail(name));
            let kind = string_of(&crate::text::chars_of("reachability-unmet"));
            let mut anomalies: Vec<Anomaly> = Vec::new();
            anomalies.push(Anomaly::with_detail(kind, string_of(&m)));
            Verdict::invalid(anomalies)
        },
        PropertyKind::EventuallyWithin { deadline } => {
            let after = match &p.after {
                Some(e) => Some(e),
                None => None,
            };
            let t0 = anchor_time(after, events);
            let lo = nanos_of(t0);
            let hi = lo + nanos_of(*deadline);
            let mut i: usize = 0;
            while i < p.frames.len()
                invariant
                    i <= p.frames.len(),
                    frames == p.frames@,
                    name == p.name@,
                    p.kind == (PropertyKind::EventuallyWithin { deadline: *deadline }),
                    lo == anchor_nanos(p.after, events@),
                    hi == lo + duration_nanos(*deadline),
                    forall|k: int| 0 <= k < i ==> !((#[trigger] frames[k]).1 && lo <= duration_nanos(frames[k].0) <= hi),
                decreases p.frames.len() - i,
            {
                let t = nanos_of(p.frames[i].0);
                if p.frames[i].1 && lo <= t && t <= hi {
                    assert(frames[i as int].1 && lo <= duration_nanos(frames[i as int].0) <= hi);
                    let w = string_of(&crate::text::chars_of("deadline evaluated against virtual time"));
                    return Verdict::valid().with_witness(Witness::Text(w));
                }
                i = i + 1;
            }
            let d = debug_duration(*deadline);
            let mut m: Vec<char> = Vec::new();
            push_str(&mut m, "`");
            push_str(&mut m, p.name.as_str());
            push_str(&mut m, "` not satisfied within ");
            push_str(&mut m, d.as_str());
            push_str(&mut m, " of ");
            match &p.after {
                None => {
                    push_str(&mut m, "None");
                },
                Some(Event::NetworkHealed) => {
                    push_str(&mut m, "Some(NetworkHealed)");
                },
                Some(Event::NodeRejoined) => {
                    push_str(&mut m, "Some(NodeRejoined)");
                },
                Some(Event::Custom(c)) => {
                    push_str(&mut m, "Some(Custom(");
                    let q = debug_str(c.as_str());
                    push_str(&mut m, q.as_str());
                    push_str(&mut m, "))");
                },
            }
            push_str(&mut m, " (virtual time)");
            assert(m@ =~= missed_detail(name, *deadline, p.after));
            let kind = string_of(&crate::text::chars_of("deadline-exceeded"));
            let mut anomalies: Vec<Anomaly> = Vec::new();
            anomalies.push(Anomaly::with_detail(kind, string_of(&m)));
            Verdict::invalid(anomalies)
        },
    }
}

/// Evaluate every property, one verdict per property tagged with its name.
pub fn evaluate_properties(props: &Vec<PropertyOutcome>, events: &Vec<RunEvent>) -> (r: Vec<NamedVerdict>)
    requires
        forall|i: int|
            0 <= i < props@.len() ==> ((#[trigger] props@[i]).kind matches PropertyKind::EventuallyWithin {
                deadline,
            } ==> anchor_nanos(props@[i].after, events@) + duration_nanos(deadline) <= max_duration_nanos()),
    ensures
        r@.len() == props@.len(),
        forall|i: int|
            0 <= i < r@.len() ==> (#[trigger] r@[i]).name@ == props@[i].name@ && verdict_ok(
                props@[i],
                events@,
                r@[i].verdict,
            ),
{
    let mut r: Vec<NamedVerdict> = Vec::new();
    let mut i: usize = 0;
    while i < props.len()
        invariant
            i <= props.len(),
            r@.len() == i,
            forall|k: int|
                0 <= k < props@.len() ==> ((#[trigger] props@[k]).kind matches PropertyKind::EventuallyWithin {
                    deadline,
                } ==> anchor_nanos(props@[k].after, events@) + duration_nanos(deadline) <= max_duration_nanos()),
            forall|k: int|
                0 <= k < i ==> (#[trigger] r@[k]).name@ == props@[k].name@ && verdict_ok(
                    props@[k],
                    events@,
                    r@[k].verdict,
                ),
        decreases props.len() - i,
    {
        let v = evaluate_one(&props[i], events);
        r.push(NamedVerdict::new(props[i].name.clone(), v));
        i = i + 1;
    }
    r
}

/// Every deadline of `props`, counted from its anchor in `events`, fits in
/// a duration.
pub open spec fn deadlines_fit(props: Seq<PropertyOutcome>, events: Seq<RunEvent>) -> bool {
    forall|i: int|
        0 <= i < props.len() ==> ((#[trigger] props[i]).kind matches PropertyKind::EventuallyWithin {
            deadline,
        } ==> anchor_nanos(props[i].after, events) + duration_nanos(deadline) <= max_duration_nanos())
}

/// Evaluate the properties when every deadline fits in a duration, else
/// `None` (adding the deadline to its anchor would overflow).
pub fn checked_evaluate_properties(props: &Vec<PropertyOutcome>, events: &Vec<RunEvent>) -> (r: Option<
    Vec<NamedVerdict>,
>)
    ensures
        r is Some <==> deadlines_fit(props@, events@),
        r matches Some(vs) ==> vs@.len() == props@.len() && forall|i: int|
            0 <= i < vs@.len() ==> (#[trigger] vs@[i]).name@ == props@[i].name@ && verdict_ok(
                props@[i],
                events@,
                vs@[i].verdict,
            ),
{
    let mut i: usize = 0;
    while i < props.len()
        invariant
            i <= props@.len(),
            forall|k: int|
                0 <= k < i ==> ((#[trigger] props@[k]).kind matches PropertyKind::EventuallyWithin {
                    deadline,
                } ==> anchor_nanos(props@[k].after, events@) + duration_nanos(deadline)
                    <= max_duration_nanos()),
        decreases props.len() - i,
    {
        match &props[i].kind {
            PropertyKind::EventuallyWithin { deadline } => {
                let anchor = anchor_time(props[i].after.as_ref(), events);
                let a = nanos_of(anchor);
                let d = nanos_of(*deadline);
                if a + d > 0xFFFF_FFFF_FFFF_FFFFu128 * 1_000_000_000u128 + 999_999_999u128 {
                    return None;
                }
            },
            _ => {},
        }
        i = i + 1;
    }
    Some(evaluate_properties(props, events))
}

} // verus!
