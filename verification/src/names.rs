//! File- and folder-name logic: song and junk classification by extension,
//! the `<genre>-<year>` naming convention of top-level folders, destination
//! folder names, and the randomized names used to avoid collisions.

use vstd::prelude::*;
use crate::bytes::{dec_rep, parse_i32_spec, parse_i32, bytes_clone, u32_to_dec};

verus! {

/// Index of the last `.` in `s`, or a negative value if there is none.
pub open spec fn last_dot(s: Seq<u8>) -> int
    decreases s.len(),
{
    if s.len() == 0 {
        -1
    } else if s.last() == 46 {
        s.len() - 1
    } else {
        last_dot(s.drop_last())
    }
}

/// Extension of a file name: what follows the last dot, unless the name has
/// no dot or only a leading one.
pub open spec fn ext_of(name: Seq<u8>) -> Option<Seq<u8>> {
    if last_dot(name) <= 0 {
        None
    } else {
        Some(name.skip(last_dot(name) + 1))
    }
}

/// Stem of a file name: what precedes the last dot, or the whole name when
/// `ext_of` gives nothing.
pub open spec fn stem_of(name: Seq<u8>) -> Seq<u8> {
    if last_dot(name) <= 0 {
        name
    } else {
        name.take(last_dot(name))
    }
}

/// The extension, or the empty string where there is none.
pub open spec fn ext_or_empty(name: Seq<u8>) -> Seq<u8> {
    match ext_of(name) {
        Some(e) => e,
        None => Seq::empty(),
    }
}

/// The audio extensions the pipeline recognizes: `mp3`, `flac`, `ogg`.
pub open spec fn song_ext(e: Seq<u8>) -> bool {
    ||| (e.len() == 3 && e[0] == 109 && e[1] == 112 && e[2] == 51)
    ||| (e.len() == 4 && e[0] == 102 && e[1] == 108 && e[2] == 97 && e[3] == 99)
    ||| (e.len() == 3 && e[0] == 111 && e[1] == 103 && e[2] == 103)
}

/// A name counts as a song exactly when its extension is an audio one.
pub open spec fn is_song_spec(name: Seq<u8>) -> bool {
    match ext_of(name) {
        Some(e) => song_ext(e),
        None => false,
    }
}

/// The junk extensions the walker deletes on sight: images, notes, playlists.
pub open spec fn junk_ext(e: Seq<u8>) -> bool {
    ||| (e.len() == 3 && e[0] == 106 && e[1] == 112 && e[2] == 103)
    ||| (e.len() == 4 && e[0] == 106 && e[1] == 112 && e[2] == 101 && e[3] == 103)
    ||| (e.len() == 3 && e[0] == 112 && e[1] == 110 && e[2] == 103)
    ||| (e.len() == 3 && e[0] == 116 && e[1] == 120 && e[2] == 116)
    ||| (e.len() == 3 && e[0] == 110 && e[1] == 102 && e[2] == 111)
    ||| (e.len() == 3 && e[0] == 109 && e[1] == 51 && e[2] == 117)
}

/// The hidden OS metadata file `.DS_Store`.
pub open spec fn is_ds_store(name: Seq<u8>) -> bool {
    name.len() == 9 && name[0] == 46 && name[1] == 68 && name[2] == 83 && name[3] == 95
        && name[4] == 83 && name[5] == 116 && name[6] == 111 && name[7] == 114 && name[8] == 101
}

/// A name is deletable junk when it is the hidden metadata file or carries a
/// junk extension.
pub open spec fn is_deletable_spec(name: Seq<u8>) -> bool {
    is_ds_store(name) || match ext_of(name) {
        Some(e) => junk_ext(e),
        None => false,
    }
}

/// Index of the first `-` in `s`, or a negative value if there is none.
pub open spec fn first_dash(s: Seq<u8>) -> int
    decreases s.len(),
{
    if s.len() == 0 {
        -1
    } else if s[0] == 45 {
        0
    } else if first_dash(s.skip(1)) < 0 {
        -1
    } else {
        first_dash(s.skip(1)) + 1
    }
}

/// Genre part of a top-level folder name: everything before the first dash.
pub open spec fn top_genre(s: Seq<u8>) -> Seq<u8> {
    s.take(first_dash(s))
}

/// Year text of a top-level folder name: between the first dash and the
/// second one, or to the end if there is no second dash.
pub open spec fn top_year_text(s: Seq<u8>) -> Seq<u8> {
    let rest = s.skip(first_dash(s) + 1);
    if first_dash(rest) < 0 {
        rest
    } else {
        rest.take(first_dash(rest))
    }
}

proof fn lemma_first_dash_at(s: Seq<u8>, i: int)
    requires
        0 <= i < s.len(),
        s[i] == 45,
        forall|j: int| 0 <= j < i ==> s[j] != 45,
    ensures
        first_dash(s) == i,
    decreases i,
{
    if i > 0 {
        lemma_first_dash_at(s.skip(1), i - 1);
    }
}

proof fn lemma_first_dash_none(s: Seq<u8>)
    requires
        forall|j: int| 0 <= j < s.len() ==> s[j] != 45,
    ensures
        first_dash(s) < 0,
    decreases s.len(),
{
    if s.len() > 0 {
        lemma_first_dash_none(s.skip(1));
    }
}

/// Index of the last dot of `name`, matching `last_dot`.
fn find_last_dot(name: &Vec<u8>) -> (r: Option<usize>)
    ensures
        match r {
            Some(k) => k < name@.len() && last_dot(name@) == k,
            None => last_dot(name@) < 0,
        },
{
    let mut i: usize = name.len();
    proof {
        assert(name@.take(name@.len() as int) =~= name@);
    }
    while i > 0
        invariant
            i <= name@.len(),
            last_dot(name@) == last_dot(name@.take(i as int)),
        decreases i,
    {
        proof {
            assert(name@.take(i as int).drop_last() =~= name@.take(i as int - 1));
        }
        if name[i - 1] == 46 {
            proof {
                assert(name@.take(i as int).last() == name@[i as int - 1]);
            }
            return Some(i - 1);
        }
        i -= 1;
    }
    None
}

/// Copies `src[from..to]`.
pub(crate) fn copy_range(src: &Vec<u8>, from: usize, to: usize) -> (r: Vec<u8>)
    requires
        from <= to <= src@.len(),
    ensures
        r@ == src@.subrange(from as int, to as int),
{
    let mut r: Vec<u8> = Vec::new();
    let mut i: usize = from;
    while i < to
        invariant
            from <= i <= to <= src@.len(),
            r@.len() == i - from,
            forall|j: int| 0 <= j < r@.len() ==> r@[j] == src@[from + j],
        decreases to - i,
    {
        r.push(src[i]);
        i += 1;
    }
    proof {
        assert(r@ =~= src@.subrange(from as int, to as int));
    }
    r
}

/// Appends all of `src` to `dst`.
pub fn push_bytes(dst: &mut Vec<u8>, src: &Vec<u8>)
    ensures
        final(dst)@ == old(dst)@ + src@,
{
    let mut i: usize = 0;
    while i < src.len()
        invariant
            i <= src@.len(),
            dst@.len() == old(dst)@.len() + i,
            forall|j: int| 0 <= j < old(dst)@.len() ==> dst@[j] == old(dst)@[j],
            forall|j: int| 0 <= j < i ==> dst@[old(dst)@.len() + j] == src@[j],
        decreases src@.len() - i,
    {
        dst.push(src[i]);
        i += 1;
    }
    proof {
        assert(dst@ =~= old(dst)@ + src@);
    }
}

/// Whether the name is a song, by its extension.
pub fn is_song_name(name: &Vec<u8>) -> (r: bool)
    ensures
        r == is_song_spec(name@),
{
    match find_last_dot(name) {
        None => false,
        Some(k) => {
            if k == 0 {
                return false;
            }
            let ghost e = name@.skip(k as int + 1);
            let n = name.len();
            let elen = n - k - 1;
            proof {
                assert(e.len() == elen);
            }
            if elen == 3 {
                let a = name[k + 1];
                let b = name[k + 2];
                let c = name[k + 3];
                (a == 109 && b == 112 && c == 51) || (a == 111 && b == 103 && c == 103)
            } else if elen == 4 {
                name[k + 1] == 102 && name[k + 2] == 108 && name[k + 3] == 97
                    && name[k + 4] == 99
            } else {
                false
            }
        },
    }
}

/// Whether the name is deletable junk.
pub fn is_deletable_name(name: &Vec<u8>) -> (r: bool)
    ensures
        r == is_deletable_spec(name@),
{
    let n = name.len();
    if n == 9 && name[0] == 46 && name[1] == 68 && name[2] == 83 && name[3] == 95
        && name[4] == 83 && name[5] == 116 && name[6] == 111 && name[7] == 114
        && name[8] == 101 {
        return true;
    }
    match find_last_dot(name) {
        None => false,
        Some(k) => {
            if k == 0 {
                return false;
            }
            let ghost e = name@.skip(k as int + 1);
            let elen = n - k - 1;
            proof {
                assert(e.len() == elen);
            }
            if elen == 3 {
                let a = name[k + 1];
                let b = name[k + 2];
                let c = name[k + 3];
                (a == 106 && b == 112 && c == 103) || (a == 112 && b == 110 && c == 103)
                    || (a == 116 && b == 120 && c == 116) || (a == 110 && b == 102 && c == 111)
                    || (a == 109 && b == 51 && c == 117)
            } else if elen == 4 {
                name[k + 1] == 106 && name[k + 2] == 112 && name[k + 3] == 101
                    && name[k + 4] == 103
            } else {
                false
            }
        },
    }
}

/// How a top-level folder name reads under the `<genre>-<year>` convention.
pub enum TopName {
    /// No dash at all: not a genre-year folder, silently skipped.
    NotTop,
    /// A well-formed `<genre>-<year>` name.
    Top { genre: Vec<u8>, source_year: i32 },
    /// Dashed, but the year component is not an integer: operator error.
    Malformed,
}

/// Index of the first dash of `name[from..]`, matching `first_dash`.
pub(crate) fn find_first_dash(name: &Vec<u8>, from: usize) -> (r: Option<usize>)
    requires
        from <= name@.len(),
    ensures
        match r {
            Some(k) => from <= k < name@.len() && first_dash(name@.skip(from as int)) == k - from,
            None => first_dash(name@.skip(from as int)) < 0,
        },
{
    let n = name.len();
    let mut i: usize = from;
    while i < n
        invariant
            from <= i <= n,
            n == name@.len(),
            forall|j: int| from <= j < i ==> name@[j] != 45,
        decreases n - i,
    {
        if name[i] == 45 {
            proof {
                let rest = name@.skip(from as int);
                assert(rest[i - from] == name@[i as int]);
                assert forall|j: int| 0 <= j < i - from implies rest[j] != 45 by {
                    assert(rest[j] == name@[from + j]);
                }
                lemma_first_dash_at(rest, i - from);
            }
            return Some(i);
        }
        i += 1;
    }
    proof {
        let rest = name@.skip(from as int);
        assert forall|j: int| 0 <= j < rest.len() implies rest[j] != 45 by {
            assert(rest[j] == name@[from + j]);
        }
        lemma_first_dash_none(rest);
    }
    None
}

/// Reads a top-level folder name: the part before the first dash is the
/// genre, the following dash-delimited component is the source year.
pub fn parse_top_name(name: &Vec<u8>) -> (r: TopName)
    ensures
        (first_dash(name@) < 0) == (r is NotTop),
        first_dash(name@) >= 0 ==> match parse_i32_spec(top_year_text(name@)) {
            Some(y) => r matches TopName::Top { genre, source_year }
                && genre@ == top_genre(name@) && source_year == y,
            None => r is Malformed,
        },
{
    proof {
        assert(name@.skip(0) =~= name@);
    }
    let d1 = match find_first_dash(name, 0) {
        None => {
            return TopName::NotTop;
        },
        Some(k) => k,
    };
    let n = name.len();
    let genre = copy_range(name, 0, d1);
    proof {
        assert(genre@ =~= top_genre(name@));
    }
    let year_end = match find_first_dash(name, d1 + 1) {
        None => n,
        Some(k) => k,
    };
    let year_text = copy_range(name, d1 + 1, year_end);
    proof {
        let rest = name@.skip(d1 as int + 1);
        if first_dash(rest) < 0 {
            assert(year_text@ =~= rest);
        } else {
            assert(year_text@ =~= rest.take(first_dash(rest)));
        }
        assert(year_text@ == top_year_text(name@));
    }
    match parse_i32(&year_text) {
        Some(y) => TopName::Top { genre, source_year: y },
        None => TopName::Malformed,
    }
}

/// Destination folder name `<genre>-<year>` under the collection root.
pub fn dest_folder_name(genre: &Vec<u8>, year: i32) -> (r: Vec<u8>)
    requires
        0 <= year,
    ensures
        r@ == genre@ + seq![45u8] + dec_rep(year as nat),
{
    let mut r = bytes_clone(genre);
    r.push(45);
    let d = u32_to_dec(year as u32);
    push_bytes(&mut r, &d);
    proof {
        assert(r@ =~= genre@ + seq![45u8] + dec_rep(year as nat));
    }
    r
}

/// Folder name with a random numeric suffix, used when the destination
/// already holds a folder of this name.
pub fn suffixed_dir_name(name: &Vec<u8>, suffix: u32) -> (r: Vec<u8>)
    ensures
        r@ == name@ + seq![45u8] + dec_rep(suffix as nat),
{
    let mut r = bytes_clone(name);
    r.push(45);
    let d = u32_to_dec(suffix);
    push_bytes(&mut r, &d);
    proof {
        assert(r@ =~= name@ + seq![45u8] + dec_rep(suffix as nat));
    }
    r
}

/// File name `<stem>-<suffix>.<ext>`, used when the destination already
/// holds a file of this name.
pub fn suffixed_file_name(name: &Vec<u8>, suffix: u32) -> (r: Vec<u8>)
    ensures
        r@ == stem_of(name@) + seq![45u8] + dec_rep(suffix as nat) + seq![46u8]
            + ext_or_empty(name@),
{
    let n = name.len();
    let (stem, ext) = match find_last_dot(name) {
        None => (bytes_clone(name), Vec::new()),
        Some(k) => {
            if k == 0 {
                (bytes_clone(name), Vec::new())
            } else {
                (copy_range(name, 0, k), copy_range(name, k + 1, n))
            }
        },
    };
    proof {
        assert(stem@ == stem_of(name@));
        assert(ext@ == ext_or_empty(name@));
    }
    let mut r = stem;
    r.push(45);
    let d = u32_to_dec(suffix);
    push_bytes(&mut r, &d);
    r.push(46);
    push_bytes(&mut r, &ext);
    proof {
        assert(r@ =~= stem_of(name@) + seq![45u8] + dec_rep(suffix as nat) + seq![46u8]
            + ext_or_empty(name@));
    }
    r
}

proof fn lemma_before_first_dash(s: Seq<u8>)
    ensures
        forall|j: int| 0 <= j < first_dash(s) ==> s[j] != 45,
    decreases s.len(),
{
    if s.len() > 0 && s[0] != 45 && first_dash(s.skip(1)) >= 0 {
        lemma_before_first_dash(s.skip(1));
        lemma_first_dash_range(s);
        assert forall|j: int| 0 <= j < first_dash(s) implies s[j] != 45 by {
            if j > 0 {
                assert(s.skip(1)[j - 1] == s[j]);
            }
        }
    }
}

/// A genre cut from a top folder name never holds a dash: it ends at the
/// first one.
pub proof fn lemma_top_genre_dash_free(s: Seq<u8>)
    requires
        first_dash(s) >= 0,
    ensures
        forall|j: int| 0 <= j < top_genre(s).len() ==> top_genre(s)[j] != 45,
{
    lemma_before_first_dash(s);
    lemma_first_dash_range(s);
    assert forall|j: int| 0 <= j < top_genre(s).len() implies top_genre(s)[j] != 45 by {
        assert(top_genre(s)[j] == s[j]);
    }
}

proof fn lemma_first_dash_range(s: Seq<u8>)
    ensures
        first_dash(s) < s.len(),
    decreases s.len(),
{
    if s.len() > 0 && s[0] != 45 {
        lemma_first_dash_range(s.skip(1));
    }
}

/// Law: a destination folder's name reads back as the genre and year it
/// was built from. The genre, cut at the first dash of a top folder name,
/// never holds a dash itself; so once an item lands under
/// `<genre>-<year>`, a later ingestion parses that folder to the same
/// genre and year, and the item counts as correctly filed from then on.
pub proof fn lemma_dest_name_reads_back(genre: Seq<u8>, year: i32)
    requires
        0 <= year,
        forall|j: int| 0 <= j < genre.len() ==> genre[j] != 45,
    ensures
        ({
            let dest = genre + seq![45u8] + dec_rep(year as nat);
            &&& first_dash(dest) == genre.len()
            &&& top_genre(dest) == genre
            &&& parse_i32_spec(top_year_text(dest)) == Some(year)
        }),
{
    let dest = genre + seq![45u8] + dec_rep(year as nat);
    crate::bytes::lemma_dec_rep_digits(year as nat);
    assert forall|j: int| 0 <= j < genre.len() implies dest[j] != 45 by {
        assert(dest[j] == genre[j]);
    }
    assert(dest[genre.len() as int] == 45);
    lemma_first_dash_at(dest, genre.len() as int);
    assert(dest.take(genre.len() as int) =~= genre);
    let rest = dest.skip(genre.len() as int + 1);
    assert(rest =~= dec_rep(year as nat));
    assert forall|j: int| 0 <= j < rest.len() implies rest[j] != 45 by {
        assert(crate::bytes::is_digit(rest[j]));
    }
    lemma_first_dash_none(rest);
    crate::bytes::lemma_dec_rep_round_trip(year as nat);
}

/// Index of the first path separator in `s`, or a negative value if there
/// is none.
pub open spec fn first_sep(s: Seq<u8>) -> int
    decreases s.len(),
{
    if s.len() == 0 {
        -1
    } else if s[0] == 47 {
        0
    } else if first_sep(s.skip(1)) < 0 {
        -1
    } else {
        first_sep(s.skip(1)) + 1
    }
}

/// The components of a path: the maximal separator-free runs, in order;
/// separators themselves, leading, trailing or repeated, carry nothing.
pub open spec fn split_spec(s: Seq<u8>) -> Seq<Seq<u8>>
    decreases s.len(),
    via split_spec_decreases
{
    if s.len() == 0 {
        Seq::empty()
    } else if s[0] == 47 {
        split_spec(s.skip(1))
    } else if first_sep(s) < 1 {
        Seq::empty().push(s)
    } else {
        Seq::empty().push(s.take(first_sep(s))) + split_spec(s.skip(first_sep(s)))
    }
}

proof fn lemma_first_sep_range(s: Seq<u8>)
    ensures
        first_sep(s) < s.len(),
    decreases s.len(),
{
    if s.len() > 0 && s[0] != 47 {
        lemma_first_sep_range(s.skip(1));
    }
}

#[via_fn]
proof fn split_spec_decreases(s: Seq<u8>) {
    lemma_first_sep_range(s);
}

proof fn lemma_first_sep_at(s: Seq<u8>, i: int)
    requires
        0 <= i < s.len(),
        s[i] == 47,
        forall|j: int| 0 <= j < i ==> s[j] != 47,
    ensures
        first_sep(s) == i,
    decreases i,
{
    if i > 0 {
        lemma_first_sep_at(s.skip(1), i - 1);
    }
}

proof fn lemma_first_sep_none(s: Seq<u8>)
    requires
        forall|j: int| 0 <= j < s.len() ==> s[j] != 47,
    ensures
        first_sep(s) < 0,
    decreases s.len(),
{
    if s.len() > 0 {
        lemma_first_sep_none(s.skip(1));
    }
}

/// Splits a path into its components, exactly as `split_spec` reads it.
pub fn split_components(s: &Vec<u8>) -> (r: Vec<Vec<u8>>)
    ensures
        r.deep_view() == split_spec(s@),
{
    let n = s.len();
    let mut r: Vec<Vec<u8>> = Vec::new();
    let mut i: usize = 0;
    proof {
        assert(r.deep_view() =~~= Seq::<Seq<u8>>::empty());
        assert(s@.skip(0) =~= s@);
        assert(Seq::<Seq<u8>>::empty() + split_spec(s@) =~~= split_spec(s@));
    }
    while i < n
        invariant
            i <= n,
            n == s@.len(),
            split_spec(s@) == r.deep_view() + split_spec(s@.skip(i as int)),
        decreases n - i,
    {
        if s[i] == 47 {
            proof {
                assert(s@.skip(i as int).skip(1) =~= s@.skip(i as int + 1));
            }
            i += 1;
        } else {
            let mut j = i + 1;
            let mut at_sep = false;
            while j < n && !at_sep
                invariant
                    i < j <= n,
                    n == s@.len(),
                    s@[i as int] != 47,
                    forall|k: int| i < k < j ==> s@[k] != 47,
                    at_sep ==> j < n && s@[j as int] == 47,
                decreases n - j, (if at_sep { 0int } else { 1int }),
            {
                if s[j] == 47 {
                    at_sep = true;
                } else {
                    j += 1;
                }
            }
            let seg = copy_range(s, i, j);
            let ghost dv0 = r.deep_view();
            proof {
                let rest = s@.skip(i as int);
                assert forall|k: int| 0 <= k < j - i implies rest[k] != 47 by {
                    assert(rest[k] == s@[i + k]);
                }
                if at_sep {
                    assert(rest[j - i] == s@[j as int]);
                    lemma_first_sep_at(rest, j - i);
                    assert(seg@ =~= rest.take(first_sep(rest)));
                    assert(rest.skip(first_sep(rest)) =~= s@.skip(j as int));
                    assert(split_spec(rest) == Seq::<Seq<u8>>::empty().push(seg@)
                        + split_spec(s@.skip(j as int)));
                } else {
                    assert(j == n);
                    lemma_first_sep_none(rest);
                    assert(seg@ =~= rest);
                    assert(s@.skip(j as int) =~= Seq::<u8>::empty());
                    assert(split_spec(s@.skip(j as int)) == Seq::<Seq<u8>>::empty());
                    assert(split_spec(rest) == Seq::<Seq<u8>>::empty().push(seg@)
                        + split_spec(s@.skip(j as int)));
                }
            }
            r.push(seg);
            proof {
                assert(r.deep_view() =~~= dv0.push(seg@));
                assert(dv0.push(seg@) + split_spec(s@.skip(j as int))
                    =~~= dv0 + (Seq::<Seq<u8>>::empty().push(seg@)
                        + split_spec(s@.skip(j as int))));
            }
            i = j;
        }
    }
    proof {
        assert(s@.skip(n as int) =~= Seq::<u8>::empty());
        assert(r.deep_view() =~~= r.deep_view() + split_spec(Seq::<u8>::empty()));
    }
    r
}

proof fn lemma_last_dot_range(s: Seq<u8>)
    ensures
        last_dot(s) < s.len(),
    decreases s.len(),
{
    if s.len() > 0 && s.last() != 46 {
        lemma_last_dot_range(s.drop_last());
    }
}

/// A song is never junk: the audio extensions are disjoint from the junk
/// ones, and the hidden metadata file has no extension at all.
pub proof fn lemma_song_not_deletable(name: Seq<u8>)
    requires
        is_song_spec(name),
    ensures
        !is_deletable_spec(name),
{
    let ld = last_dot(name);
    let e = name.skip(ld + 1);
    lemma_last_dot_range(name);
    assert(0 < ld < name.len());
    if is_ds_store(name) {
        assert(e.len() == name.len() - ld - 1);
        assert forall|j: int| 0 <= j < e.len() implies e[j] == name[ld + 1 + j] by {
        }
        assert(false);
    }
}

/// ASCII lower-casing of one byte.
pub open spec fn lower(b: u8) -> u8 {
    if 65 <= b && b <= 90 {
        (b + 32) as u8
    } else {
        b
    }
}

/// The word `music` read case-insensitively at position `i` of `s`.
pub open spec fn music_at(s: Seq<u8>, i: int) -> bool {
    lower(s[i]) == 109 && lower(s[i + 1]) == 117 && lower(s[i + 2]) == 115
        && lower(s[i + 3]) == 105 && lower(s[i + 4]) == 99
}

/// Whether `s` contains the word `music`, case-insensitively.
pub open spec fn has_music(s: Seq<u8>) -> bool {
    exists|i: int| 0 <= i && i + 5 <= s.len() && #[trigger] music_at(s, i)
}

fn lower_byte(b: u8) -> (r: u8)
    ensures
        r == lower(b),
{
    if 65 <= b && b <= 90 {
        b + 32
    } else {
        b
    }
}

/// Whether a root path looks like a music collection: it mentions `music`
/// somewhere, in any case.
pub fn looks_like_music_root(s: &Vec<u8>) -> (r: bool)
    ensures
        r == has_music(s@),
{
    let n = s.len();
    if n < 5 {
        return false;
    }
    let mut i: usize = 0;
    while i <= n - 5
        invariant
            5 <= n,
            i <= n - 4,
            n == s@.len(),
            forall|j: int| 0 <= j < i ==> !(#[trigger] music_at(s@, j)),
        decreases n - i,
    {
        if lower_byte(s[i]) == 109 && lower_byte(s[i + 1]) == 117 && lower_byte(s[i + 2]) == 115
            && lower_byte(s[i + 3]) == 105 && lower_byte(s[i + 4]) == 99 {
            proof {
                assert(music_at(s@, i as int));
            }
            return true;
        }
        i += 1;
    }
    false
}

} // verus!
