//! Port classification: which serial ports answered the identity probe, and
//! with which protocol. Probing itself is plain I/O and lives outside the
//! library; this module decides what the probe replies mean.

use vstd::prelude::*;
use crate::boards::Protocol;
use crate::parse::{parse_protocol, protocol_spec};

verus! {

/// One probed port: its name, and the decoded reply text, if any bytes came
/// back before the timeout.
pub struct PortProbe {
    pub name: String,
    pub reply: Option<String>,
}

/// Name and reply views of a probe list.
pub open spec fn probe_views(ps: Seq<PortProbe>) -> Seq<(Seq<char>, Option<Seq<char>>)> {
    ps.map_values(
        |p: PortProbe|
            (
                p.name@,
                match p.reply {
                    Some(r) => Some(r@),
                    None => None,
                },
            ),
    )
}

/// Name and protocol views of a classification list.
pub open spec fn classified_views(cs: Seq<(String, Protocol)>) -> Seq<(Seq<char>, Protocol)> {
    cs.map_values(|c: (String, Protocol)| (c.0@, c.1))
}

/// The classifications a probe list denotes: every port whose reply names a
/// protocol, in probe order. A port that answered nothing, or whose reply
/// names no protocol, is absent.
pub open spec fn classify_spec(ps: Seq<(Seq<char>, Option<Seq<char>>)>) -> Seq<
    (Seq<char>, Protocol),
>
    decreases ps.len(),
{
    if ps.len() == 0 {
        Seq::empty()
    } else {
        let rest = classify_spec(ps.drop_last());
        match ps.last().1 {
            Some(r) => match protocol_spec(r) {
                Some(p) => rest.push((ps.last().0, p)),
                None => rest,
            },
            None => rest,
        }
    }
}

/// Classifies probed ports by the protocol their replies name. The result is
/// a function of the probe list alone, so probing the same environment twice
/// classifies the same ports the same way.
pub fn classify_ports(probes: &Vec<PortProbe>) -> (r: Vec<(String, Protocol)>)
    ensures
        classified_views(r@) == classify_spec(probe_views(probes@)),
{
    let ghost pv = probe_views(probes@);
    let mut out: Vec<(String, Protocol)> = Vec::new();
    let mut i: usize = 0;
    while i < probes.len()
        invariant
            pv == probe_views(probes@),
            pv.len() == probes@.len(),
            i <= probes@.len(),
            classified_views(out@) == classify_spec(pv.subrange(0, i as int)),
        decreases probes@.len() - i,
    {
        proof {
            assert(pv.subrange(0, i + 1).drop_last() =~= pv.subrange(0, i as int));
            assert(pv.subrange(0, i + 1).last() == pv[i as int]);
        }
        match &probes[i].reply {
            Some(reply) => {
                match parse_protocol(reply.as_str()) {
                    Some(p) => {
                        let name = probes[i].name.clone();
                        proof {
                            assert(classified_views(out@.push((name, p))) =~= classified_views(
                                out@,
                            ).push((name@, p)));
                        }
                        out.push((name, p));
                    },
                    None => {},
                }
            },
            None => {},
        }
        i += 1;
    }
    proof {
        assert(pv.subrange(0, pv.len() as int) =~= pv);
    }
    out
}

/// A port that answered nothing is classified as nothing: when port names
/// are distinct, a probe without a reply leaves no entry under its name.
pub proof fn lemma_silent_port_unclassified(ps: Seq<(Seq<char>, Option<Seq<char>>)>, i: int)
    requires
        0 <= i < ps.len(),
        ps[i].1 is None,
        forall|a: int, b: int| 0 <= a < b < ps.len() ==> ps[a].0 != ps[b].0,
    ensures
        forall|j: int| 0 <= j < classify_spec(ps).len() ==> classify_spec(ps)[j].0 != ps[i].0,
    decreases ps.len(),
{
    if ps.len() > 0 {
        let d = ps.drop_last();
        if i < ps.len() - 1 {
            lemma_silent_port_unclassified(d, i);
            assert(forall|j: int|
                0 <= j < classify_spec(d).len() ==> classify_spec(d)[j].0 != d[i].0);
        } else {
            lemma_classified_names_present(d);
        }
    }
}

/// Every classified name is the name of some probe.
proof fn lemma_classified_names_present(ps: Seq<(Seq<char>, Option<Seq<char>>)>)
    ensures
        forall|j: int|
            0 <= j < classify_spec(ps).len() ==> exists|a: int|
                0 <= a < ps.len() && #[trigger] ps[a].0 == (#[trigger] classify_spec(ps)[j]).0,
    decreases ps.len(),
{
    if ps.len() > 0 {
        let d = ps.drop_last();
        lemma_classified_names_present(d);
        assert forall|j: int| 0 <= j < classify_spec(ps).len() implies exists|a: int|
            0 <= a < ps.len() && #[trigger] ps[a].0 == (#[trigger] classify_spec(ps)[j]).0 by {
            if j < classify_spec(d).len() {
                let a = choose|a: int| 0 <= a < d.len() && d[a].0 == classify_spec(d)[j].0;
                assert(ps[a].0 == classify_spec(ps)[j].0);
            } else {
                assert(ps[ps.len() - 1].0 == classify_spec(ps)[j].0);
            }
        }
    }
}

/// Name of the first port classified with protocol `p`, if any.
pub open spec fn first_of(cs: Seq<(Seq<char>, Protocol)>, p: Protocol) -> Option<Seq<char>>
    decreases cs.len(),
{
    if cs.len() == 0 {
        None
    } else if cs[0].1 == p {
        Some(cs[0].0)
    } else {
        first_of(cs.drop_first(), p)
    }
}

/// Picks the ports a monitor connects to: the first NET-classified port and
/// the first EXP-classified port. Both must be present, or nothing is
/// selected.
pub fn select_ports(classified: &Vec<(String, Protocol)>) -> (r: Option<(String, String)>)
    ensures
        match r {
            Some(sel) => first_of(classified_views(classified@), Protocol::NET) == Some(sel.0@)
                && first_of(classified_views(classified@), Protocol::EXP) == Some(sel.1@),
            None => first_of(classified_views(classified@), Protocol::NET) is None || first_of(
                classified_views(classified@),
                Protocol::EXP,
            ) is None,
        },
{
    let ghost cv = classified_views(classified@);
    proof {
        assert(cv.skip(0) =~= cv);
    }
    let mut net: Option<String> = None;
    let mut exp: Option<String> = None;
    let mut i: usize = 0;
    while i < classified.len()
        invariant
            cv == classified_views(classified@),
            cv.len() == classified@.len(),
            i <= classified@.len(),
            match net {
                Some(s) => first_of(cv, Protocol::NET) == Some(s@),
                None => first_of(cv, Protocol::NET) == first_of(
                    cv.skip(i as int),
                    Protocol::NET,
                ),
            },
            match exp {
                Some(s) => first_of(cv, Protocol::EXP) == Some(s@),
                None => first_of(cv, Protocol::EXP) == first_of(
                    cv.skip(i as int),
                    Protocol::EXP,
                ),
            },
        decreases classified@.len() - i,
    {
        proof {
            assert(cv.skip(i as int).drop_first() =~= cv.skip(i + 1));
            assert(cv.skip(i as int)[0] == cv[i as int]);
        }
        match classified[i].1 {
            Protocol::NET => {
                if net.is_none() {
                    net = Some(classified[i].0.clone());
                }
            },
            Protocol::EXP => {
                if exp.is_none() {
                    exp = Some(classified[i].0.clone());
                }
            },
        }
        i += 1;
    }
    proof {
        assert(cv.skip(cv.len() as int).len() == 0);
    }
    match (net, exp) {
        (Some(n), Some(e)) => Some((n, e)),
        _ => None,
    }
}

} // verus!
