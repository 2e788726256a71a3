//! The Year Resolver: turns what the tag reader yielded into a year state,
//! for single files and for directories (maximum over immediate children,
//! one level only).

use vstd::prelude::*;
use crate::item::YearState;
use crate::names::{is_song_spec, is_song_name, first_dash, find_first_dash, copy_range};
use crate::bytes::{parse_i32_spec, parse_i32};

verus! {

/// What the tag reader yielded for one file.
pub enum TagOutcome {
    /// No readable tag.
    NoTag,
    /// A tag: an optional structured year, and the raw text of the
    /// timestamp-like field when that field is present.
    Tag { year: Option<i32>, date_text: Option<Vec<u8>> },
}

/// One immediate child of a directory under resolution: its name, and what
/// the tag reader yielded for it. Subdirectories resolve to `Unknown` by
/// themselves, since their names carry no song extension.
pub struct ChildEntry {
    pub name: Vec<u8>,
    pub tag: TagOutcome,
}

/// What the shell observed for one pending item.
pub enum Probe {
    /// The recorded path no longer exists.
    Missing,
    /// A directory, with its immediate children.
    Directory(Vec<ChildEntry>),
    /// A file, with its tag.
    File(TagOutcome),
}

/// A year-like field that slipped past the date-shape filter but does not
/// read as an integer: fatal for the invocation, by design.
#[derive(Clone, Copy, PartialEq, Eq, Structural, Debug)]
pub struct BadYearText;

/// Number of dashes in `s`.
pub open spec fn dash_count(s: Seq<u8>) -> nat
    decreases s.len(),
{
    if s.len() == 0 {
        0
    } else {
        dash_count(s.drop_last()) + if s.last() == 45 { 1nat } else { 0nat }
    }
}

/// Year read from the raw timestamp-like text: a dashed value must have the
/// `YYYY-MM-DD` shape (exactly two dashes) and yields its leading component;
/// an undashed value is read whole; any other dashed shape is `Unknown`.
/// `None` stands for a fatal parse failure of a component that was read.
pub open spec fn date_year_spec(t: Seq<u8>) -> Option<YearState> {
    if dash_count(t) > 0 && dash_count(t) != 2 {
        Some(YearState::Unknown)
    } else if dash_count(t) == 2 {
        match parse_i32_spec(t.take(first_dash(t))) {
            Some(y) => Some(YearState::Resolved(y)),
            None => None,
        }
    } else {
        match parse_i32_spec(t) {
            Some(y) => Some(YearState::Resolved(y)),
            None => None,
        }
    }
}

/// Year of one file: `Unknown` unless it is a song with a tag; a structured
/// year wins; otherwise the raw field decides; a missing field is `Unknown`.
pub open spec fn song_year_spec(name: Seq<u8>, tag: TagOutcome) -> Option<YearState> {
    if !is_song_spec(name) {
        Some(YearState::Unknown)
    } else {
        match tag {
            TagOutcome::NoTag => Some(YearState::Unknown),
            TagOutcome::Tag { year: Some(y), date_text: _ } => Some(YearState::Resolved(y)),
            TagOutcome::Tag { year: None, date_text: None } => Some(YearState::Unknown),
            TagOutcome::Tag { year: None, date_text: Some(t) } => date_year_spec(t@),
        }
    }
}

/// The larger of two year states; a resolved year always beats `Unknown`.
pub open spec fn year_max(a: YearState, b: YearState) -> YearState {
    match (a, b) {
        (YearState::Resolved(x), YearState::Resolved(y)) => if x >= y {
            a
        } else {
            b
        },
        (YearState::Resolved(_), _) => a,
        (_, YearState::Resolved(_)) => b,
        _ => YearState::Unknown,
    }
}

/// Year of a directory: the maximum over what its immediate children
/// resolve to, `Unknown` when no child yields a usable year. One level
/// only: grandchildren are never consulted.
pub open spec fn dir_year_spec(children: Seq<ChildEntry>) -> Option<YearState>
    decreases children.len(),
{
    if children.len() == 0 {
        Some(YearState::Unknown)
    } else {
        match (
            dir_year_spec(children.drop_last()),
            song_year_spec(children.last().name@, children.last().tag),
        ) {
            (Some(acc), Some(cur)) => Some(year_max(acc, cur)),
            _ => None,
        }
    }
}

proof fn lemma_no_dash_count(s: Seq<u8>)
    requires
        forall|j: int| 0 <= j < s.len() ==> s[j] != 45,
    ensures
        dash_count(s) == 0,
    decreases s.len(),
{
    if s.len() > 0 {
        lemma_no_dash_count(s.drop_last());
    }
}

proof fn lemma_first_dash_neg(s: Seq<u8>)
    requires
        first_dash(s) < 0,
    ensures
        forall|j: int| 0 <= j < s.len() ==> s[j] != 45,
    decreases s.len(),
{
    if s.len() > 0 {
        if s[0] == 45 {
        } else {
            lemma_first_dash_neg(s.skip(1));
            assert forall|j: int| 0 <= j < s.len() implies s[j] != 45 by {
                if j > 0 {
                    assert(s.skip(1)[j - 1] == s[j]);
                }
            }
        }
    }
}

/// Counts the dashes of `t`.
fn count_dashes(t: &Vec<u8>) -> (r: usize)
    ensures
        r == dash_count(t@),
{
    let mut r: usize = 0;
    let mut i: usize = 0;
    while i < t.len()
        invariant
            i <= t@.len(),
            r == dash_count(t@.take(i as int)),
            r <= i,
        decreases t@.len() - i,
    {
        proof {
            assert(t@.take(i as int + 1).drop_last() =~= t@.take(i as int));
            assert(t@.take(i as int + 1).last() == t@[i as int]);
        }
        if t[i] == 45 {
            r += 1;
        }
        i += 1;
    }
    proof {
        assert(t@.take(t@.len() as int) =~= t@);
    }
    r
}

/// Year of the raw timestamp-like text, exactly as `date_year_spec` reads
/// it; `Err` is the fatal malformed-field case.
fn resolve_date_text(t: &Vec<u8>) -> (r: Result<YearState, BadYearText>)
    ensures
        match date_year_spec(t@) {
            Some(y) => r == Ok::<YearState, BadYearText>(y),
            None => r is Err,
        },
        r matches Ok(y) ==> !(y is Pending),
{
    let dc = count_dashes(t);
    if dc > 0 && dc != 2 {
        Ok(YearState::Unknown)
    } else if dc == 2 {
        let d1 = match find_first_dash(t, 0) {
            Some(k) => k,
            None => {
                proof {
                    assert(t@.skip(0) =~= t@);
                    lemma_first_dash_neg(t@);
                    lemma_no_dash_count(t@);
                    assert(false);
                }
                0
            },
        };
        proof {
            assert(t@.skip(0) =~= t@);
        }
        let head = copy_range(t, 0, d1);
        proof {
            assert(head@ =~= t@.take(first_dash(t@)));
        }
        match parse_i32(&head) {
            Some(y) => Ok(YearState::Resolved(y)),
            None => Err(BadYearText),
        }
    } else {
        match parse_i32(t) {
            Some(y) => Ok(YearState::Resolved(y)),
            None => Err(BadYearText),
        }
    }
}

/// Year of one file, exactly as `song_year_spec` reads it.
pub fn resolve_song_year(name: &Vec<u8>, tag: &TagOutcome) -> (r: Result<YearState, BadYearText>)
    ensures
        match song_year_spec(name@, *tag) {
            Some(y) => r == Ok::<YearState, BadYearText>(y),
            None => r is Err,
        },
        r matches Ok(y) ==> !(y is Pending),
{
    if !is_song_name(name) {
        return Ok(YearState::Unknown);
    }
    match tag {
        TagOutcome::NoTag => Ok(YearState::Unknown),
        TagOutcome::Tag { year: Some(y), date_text: _ } => Ok(YearState::Resolved(*y)),
        TagOutcome::Tag { year: None, date_text: None } => Ok(YearState::Unknown),
        TagOutcome::Tag { year: None, date_text: Some(t) } => resolve_date_text(t),
    }
}

proof fn lemma_dir_year_err(children: Seq<ChildEntry>, i: int)
    requires
        0 <= i < children.len(),
        song_year_spec(children[i].name@, children[i].tag) is None,
    ensures
        dir_year_spec(children) is None,
    decreases children.len(),
{
    if i < children.len() - 1 {
        assert(children.drop_last()[i] == children[i]);
        lemma_dir_year_err(children.drop_last(), i);
    }
}

/// Year of a directory, exactly as `dir_year_spec` aggregates it.
pub fn resolve_dir_year(children: &Vec<ChildEntry>) -> (r: Result<YearState, BadYearText>)
    ensures
        match dir_year_spec(children@) {
            Some(y) => r == Ok::<YearState, BadYearText>(y),
            None => r is Err,
        },
        r matches Ok(y) ==> !(y is Pending),
{
    let mut acc = YearState::Unknown;
    let mut i: usize = 0;
    while i < children.len()
        invariant
            i <= children@.len(),
            dir_year_spec(children@.take(i as int)) == Some(acc),
            !(acc is Pending),
        decreases children@.len() - i,
    {
        proof {
            assert(children@.take(i as int + 1).drop_last() =~= children@.take(i as int));
            assert(children@.take(i as int + 1).last() == children@[i as int]);
        }
        let c = &children[i];
        match resolve_song_year(&c.name, &c.tag) {
            Ok(cur) => {
                acc = match (acc, cur) {
                    (YearState::Resolved(x), YearState::Resolved(y)) => if x >= y {
                        acc
                    } else {
                        cur
                    },
                    (YearState::Resolved(_), _) => acc,
                    (_, YearState::Resolved(_)) => cur,
                    _ => YearState::Unknown,
                };
            },
            Err(e) => {
                proof {
                    lemma_dir_year_err(children@, i as int);
                }
                return Err(e);
            },
        }
        i += 1;
    }
    proof {
        assert(children@.take(children@.len() as int) =~= children@);
    }
    Ok(acc)
}

/// Year of one pending item from what the shell observed: a vanished path
/// is `Errored`; a directory aggregates its children; a file reads its tag.
pub fn resolve_probe(name: &Vec<u8>, probe: &Probe) -> (r: Result<YearState, BadYearText>)
    ensures
        (*probe is Missing) ==> r == Ok::<YearState, BadYearText>(YearState::Errored),
        *probe matches Probe::Directory(cs) ==> (match dir_year_spec(cs@) {
            Some(y) => r == Ok::<YearState, BadYearText>(y),
            None => r is Err,
        }),
        *probe matches Probe::File(t) ==> (match song_year_spec(name@, t) {
            Some(y) => r == Ok::<YearState, BadYearText>(y),
            None => r is Err,
        }),
        r matches Ok(y) ==> !(y is Pending),
{
    match probe {
        Probe::Missing => Ok(YearState::Errored),
        Probe::Directory(cs) => resolve_dir_year(cs),
        Probe::File(t) => resolve_song_year(name, t),
    }
}

/// Law: a directory's year really is the maximum over its immediate
/// children — it is some child's resolved year, and no child resolves
/// higher. Grandchildren are never consulted.
pub proof fn lemma_dir_year_is_max(children: Seq<ChildEntry>, y: i32)
    requires
        dir_year_spec(children) == Some(YearState::Resolved(y)),
    ensures
        exists|i: int| 0 <= i < children.len()
            && song_year_spec((#[trigger] children[i]).name@, children[i].tag)
                == Some(YearState::Resolved(y)),
        forall|i: int| 0 <= i < children.len()
            ==> ((#[trigger] song_year_spec(children[i].name@, children[i].tag))
                matches Some(YearState::Resolved(z)) ==> z <= y),
    decreases children.len(),
{
    let head = children.drop_last();
    let acc = dir_year_spec(head).unwrap();
    let cur = song_year_spec(children.last().name@, children.last().tag).unwrap();
    assert(forall|i: int| 0 <= i < head.len() ==> #[trigger] head[i] == children[i]);
    assert(children[children.len() - 1] == children.last());
    assert(year_max(acc, cur) == YearState::Resolved(y));
    lemma_dir_year_shape(head);
    match (acc, cur) {
        (YearState::Resolved(x), YearState::Resolved(c)) => {
            lemma_dir_year_is_max(head, x);
            if c >= x {
                assert(y == c);
                assert(song_year_spec(children[children.len() - 1].name@,
                    children[children.len() - 1].tag) == Some(YearState::Resolved(y)));
            } else {
                assert(y == x);
                let w = choose|i: int| 0 <= i < head.len()
                    && song_year_spec((#[trigger] head[i]).name@, head[i].tag)
                        == Some(YearState::Resolved(x));
                assert(song_year_spec(children[w].name@, children[w].tag)
                    == Some(YearState::Resolved(y)));
            }
            assert forall|i: int| 0 <= i < children.len()
                implies ((#[trigger] song_year_spec(children[i].name@, children[i].tag))
                    matches Some(YearState::Resolved(z)) ==> z <= y) by {
                if i < children.len() - 1 {
                    assert(head[i] == children[i]);
                }
            }
        },
        (YearState::Resolved(x), _) => {
            assert(y == x);
            lemma_dir_year_is_max(head, x);
            let w = choose|i: int| 0 <= i < head.len()
                && song_year_spec((#[trigger] head[i]).name@, head[i].tag)
                    == Some(YearState::Resolved(x));
            assert(song_year_spec(children[w].name@, children[w].tag)
                == Some(YearState::Resolved(y)));
            assert forall|i: int| 0 <= i < children.len()
                implies ((#[trigger] song_year_spec(children[i].name@, children[i].tag))
                    matches Some(YearState::Resolved(z)) ==> z <= y) by {
                if i < children.len() - 1 {
                    assert(head[i] == children[i]);
                }
            }
        },
        (_, YearState::Resolved(c)) => {
            assert(y == c);
            assert(acc is Unknown);
            lemma_dir_year_unresolved(head);
            assert(song_year_spec(children[children.len() - 1].name@,
                children[children.len() - 1].tag) == Some(YearState::Resolved(y)));
            assert forall|i: int| 0 <= i < children.len()
                implies ((#[trigger] song_year_spec(children[i].name@, children[i].tag))
                    matches Some(YearState::Resolved(z)) ==> z <= y) by {
                if i < children.len() - 1 {
                    assert(head[i] == children[i]);
                }
            }
        },
        _ => {
            assert(false);
        },
    }
}

/// What `dir_year_spec` can yield, when it yields at all: only `Unknown` or
/// a resolved year, never one of the other states.
proof fn lemma_dir_year_shape(children: Seq<ChildEntry>)
    ensures
        dir_year_spec(children) matches Some(v) ==> (v is Unknown || v is Resolved),
    decreases children.len(),
{
    if children.len() > 0 {
        lemma_dir_year_shape(children.drop_last());
    }
}

/// Law: a directory that aggregates to `Unknown` has no child with a
/// usable year at all.
pub proof fn lemma_dir_year_unresolved(children: Seq<ChildEntry>)
    requires
        dir_year_spec(children) == Some(YearState::Unknown),
    ensures
        forall|i: int| 0 <= i < children.len()
            ==> !((#[trigger] song_year_spec(children[i].name@, children[i].tag))
                matches Some(YearState::Resolved(_))),
    decreases children.len(),
{
    if children.len() > 0 {
        let head = children.drop_last();
        let acc = dir_year_spec(head).unwrap();
        let cur = song_year_spec(children.last().name@, children.last().tag).unwrap();
        assert(forall|i: int| 0 <= i < head.len() ==> #[trigger] head[i] == children[i]);
        assert(children[children.len() - 1] == children.last());
        assert(year_max(acc, cur) == YearState::Unknown);
        assert(!(cur is Resolved));
        assert(!(acc is Resolved));
        lemma_dir_year_shape(head);
        assert(acc is Unknown);
        lemma_dir_year_unresolved(head);
        assert forall|i: int| 0 <= i < children.len()
            implies !((#[trigger] song_year_spec(children[i].name@, children[i].tag))
                matches Some(YearState::Resolved(_))) by {
            if i < children.len() - 1 {
                assert(head[i] == children[i]);
            } else {
                assert(song_year_spec(children[i].name@, children[i].tag) == Some(cur));
            }
        }
    }
}

} // verus!
