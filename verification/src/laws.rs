//! Properties that relate several operations of the library.
use vstd::prelude::*;

use crate::archive::{DirEntry, has_image_suffix_spec, is_candidate_with, is_zip_name, last_dot, path_extension, zip_names};
use crate::keyed::{entries_insert, entries_map, has_key, key_position, keys_distinct};
use crate::library::{ContentView, Date, EntryView, LibraryView, not_yet_recorded, update_run, update_step, without_path};
use crate::outside::{base64_char, base64_standard};
use crate::text::{seq_ends_with, seq_lt};
use crate::viewer::{SessionView, ViewerError, mime_for_spec, page_answer, page_entries};

verus! {

/// Recording a content keeps the keys distinct, and the metadata, read as a
/// map, is the old map with the key set to the new content: what a write
/// wrote is what a later read gives back, and every other key is untouched.
pub proof fn law_record_is_map_insert<W>(s: Seq<(Seq<char>, W)>, k: Seq<char>, v: W)
    requires
        keys_distinct(s),
    ensures
        keys_distinct(entries_insert(s, k, v)),
        entries_map(entries_insert(s, k, v)) == entries_map(s).insert(k, v),
{
    let t = entries_insert(s, k, v);
    if has_key(s, k) {
        let p = key_position(s, k);
        assert forall|x: Seq<char>| has_key(t, x) <==> (has_key(s, x) || x == k) by {
            if has_key(s, x) {
                let q = key_position(s, x);
                if q == p {
                    assert(t[p].0 == k);
                } else {
                    assert(t[q].0 == x);
                }
            }
            if has_key(t, x) {
                let q = choose|i: int| 0 <= i < t.len() && #[trigger] t[i].0 == x;
                if q != p {
                    assert(s[q].0 == x);
                }
            }
        }
        assert forall|x: Seq<char>| #[trigger] has_key(t, x) implies t[key_position(t, x)].1
            == (if x == k { v } else { s[key_position(s, x)].1 }) by {
            let q = key_position(t, x);
            if x == k {
                if q != p {
                    assert(t[q].0 == s[q].0);
                    if q < p {
                        assert(s[q].0 != s[p].0);
                    } else {
                        assert(s[p].0 != s[q].0);
                    }
                }
            } else {
                let r = key_position(s, x);
                assert(q != p);
                assert(s[q].0 == x);
                if q != r {
                    if q < r {
                        assert(s[q].0 != s[r].0);
                    } else {
                        assert(s[r].0 != s[q].0);
                    }
                }
            }
        }
    } else {
        assert forall|x: Seq<char>| has_key(t, x) <==> (has_key(s, x) || x == k) by {
            if has_key(s, x) {
                let q = key_position(s, x);
                assert(t[q].0 == x);
            }
            if x == k {
                assert(t[s.len() as int].0 == k);
            }
            if has_key(t, x) {
                let q = choose|i: int| 0 <= i < t.len() && #[trigger] t[i].0 == x;
                if q < s.len() {
                    assert(s[q].0 == x);
                }
            }
        }
        assert forall|x: Seq<char>| #[trigger] has_key(t, x) implies t[key_position(t, x)].1
            == (if x == k { v } else { s[key_position(s, x)].1 }) by {
            let q = key_position(t, x);
            if x == k {
                if q < s.len() {
                    assert(s[q].0 == k);
                }
            } else {
                let r = key_position(s, x);
                assert(q < s.len());
                assert(s[q].0 == x);
                if q != r {
                    if q < r {
                        assert(s[q].0 != s[r].0);
                    } else {
                        assert(s[r].0 != s[q].0);
                    }
                }
            }
        }
    }
    assert(entries_map(t) =~= entries_map(s).insert(k, v));
}

/// After an archive is recorded, it is no longer among the archives still to
/// be processed, and every other archive stays pending exactly as before.
pub proof fn law_recorded_is_no_longer_pending(
    names: Seq<Seq<char>>,
    s: Seq<EntryView>,
    k: Seq<char>,
    v: ContentView,
)
    requires
        keys_distinct(s),
    ensures
        not_yet_recorded(names, entries_insert(s, k, v)) == not_yet_recorded(names, s).filter(
            |n: Seq<char>| n != k,
        ),
    decreases names.len(),
{
    law_record_is_map_insert(s, k, v);
    let t = entries_insert(s, k, v);
    assert(entries_map(t).dom() == entries_map(s).insert(k, v).dom());
    assert forall|x: Seq<char>| has_key(t, x) == (has_key(s, x) || x == k) by {
        assert(entries_map(t).dom().contains(x) == has_key(t, x));
        assert(entries_map(s).dom().contains(x) == has_key(s, x));
    }
    reveal_with_fuel(Seq::filter, 1);
    if names.len() > 0 {
        law_recorded_is_no_longer_pending(names.drop_last(), s, k, v);
        let rest = not_yet_recorded(names.drop_last(), s);
        if !has_key(s, names.last()) {
            assert(rest.push(names.last()).drop_last() =~= rest);
        }
    }
}

/// Dropping path `p` from a catalogue with one more library at the end keeps
/// that library exactly when its path is not `p`.
proof fn lemma_without_path_push(s: Seq<LibraryView>, l: LibraryView, p: Seq<char>)
    ensures
        without_path(s.push(l), p) == if l.path != p {
            without_path(s, p).push(l)
        } else {
            without_path(s, p)
        },
{
    reveal_with_fuel(Seq::filter, 1);
    assert(s.push(l).drop_last() =~= s);
}

/// Removing the path of a library just registered takes the catalogue back
/// to what removing that path would have made of it before: the new library
/// is gone, and nothing else differs.
pub proof fn law_register_then_remove(s: Seq<LibraryView>, l: LibraryView)
    ensures
        without_path(s.push(l), l.path) == without_path(s, l.path),
{
    lemma_without_path_push(s, l, l.path);
}

/// Removing a path that no library has leaves the catalogue unchanged.
pub proof fn law_remove_absent_path(s: Seq<LibraryView>, p: Seq<char>)
    requires
        forall|i: int| 0 <= i < s.len() ==> #[trigger] s[i].path != p,
    ensures
        without_path(s, p) == s,
    decreases s.len(),
{
    if s.len() > 0 {
        law_remove_absent_path(s.drop_last(), p);
        lemma_without_path_push(s.drop_last(), s.last(), p);
        assert(s.drop_last().push(s.last()) =~= s);
    }
}

/// After a removal no library has the removed path.
pub proof fn law_removed_path_is_gone(s: Seq<LibraryView>, p: Seq<char>, i: int)
    requires
        0 <= i < without_path(s, p).len(),
    ensures
        without_path(s, p)[i].path != p,
{
    s.lemma_filter_pred(|l: LibraryView| l.path != p, i);
}

/// A window's pages, once opened, are what its page requests are answered
/// with: page `i` for an index in range, `IndexOutOfRange` beyond; the
/// answers for every other window stay as they were.
pub proof fn law_open_then_request(
    s: Seq<SessionView>,
    label: Seq<char>,
    pages: Seq<Seq<char>>,
    other: Seq<char>,
    i: int,
)
    requires
        keys_distinct(s),
    ensures
        page_answer(entries_insert(s, label, pages), label, i) == if 0 <= i < pages.len() {
            Ok::<Seq<char>, ViewerError>(pages[i])
        } else {
            Err::<Seq<char>, ViewerError>(ViewerError::IndexOutOfRange)
        },
        other != label ==> page_answer(entries_insert(s, label, pages), other, i) == page_answer(s, other, i),
{
    law_record_is_map_insert(s, label, pages);
    let t = entries_insert(s, label, pages);
    let m = entries_map(t);
    assert(m.dom().contains(label));
    assert(has_key(t, label));
    assert(m[label] == pages);
    if other != label {
        let ms = entries_map(s);
        assert(m == ms.insert(label, pages));
        assert(has_key(t, other) == m.dom().contains(other));
        assert(has_key(s, other) == ms.dom().contains(other));
        assert(m.dom().contains(other) == ms.dom().contains(other));
        if has_key(s, other) {
            assert(m[other] == ms[other]);
            assert(m[other] == t[key_position(t, other)].1);
            assert(ms[other] == s[key_position(s, other)].1);
        }
    }
}

/// Setting a key adds that key and keeps every other.
proof fn lemma_insert_keys<W>(s: Seq<(Seq<char>, W)>, k: Seq<char>, v: W, x: Seq<char>)
    requires
        keys_distinct(s),
    ensures
        has_key(entries_insert(s, k, v), x) == (has_key(s, x) || x == k),
{
    law_record_is_map_insert(s, k, v);
    let t = entries_insert(s, k, v);
    assert(entries_map(t).dom().contains(x) == has_key(t, x));
    assert(entries_map(s).dom().contains(x) == has_key(s, x));
    assert(entries_map(t).dom() == entries_map(s).insert(k, v).dom());
}

/// Every element kept by a filter is an element of the filtered sequence.
proof fn lemma_filter_subset(s: Seq<Seq<char>>, p: spec_fn(Seq<char>) -> bool, i: int)
    requires
        0 <= i < s.filter(p).len(),
    ensures
        s.contains(s.filter(p)[i]),
    decreases s.len(),
{
    reveal_with_fuel(Seq::filter, 1);
    if s.len() > 0 {
        let rest = s.drop_last().filter(p);
        if i < rest.len() {
            lemma_filter_subset(s.drop_last(), p, i);
            let k = choose|k: int| 0 <= k < s.drop_last().len() && s.drop_last()[k] == rest[i];
            assert(s[k] == rest[i]);
        } else {
            assert(s[s.len() - 1] == s.filter(p)[i]);
        }
    }
}

/// An update run keeps the keys distinct, keeps every key recorded before
/// it, and records every archive whose thumbnail was made; it adds no other
/// key.
pub proof fn law_update_run_records(
    m: Seq<EntryView>,
    targets: Seq<Seq<char>>,
    made: spec_fn(Seq<char>) -> bool,
    ids: spec_fn(int) -> Seq<char>,
    dates: spec_fn(int) -> Date,
)
    requires
        keys_distinct(m),
    ensures
        keys_distinct(update_run(m, targets, made, ids, dates)),
        forall|x: Seq<char>| has_key(m, x) ==> #[trigger] has_key(update_run(m, targets, made, ids, dates), x),
        forall|i: int| 0 <= i < targets.len() && made(#[trigger] targets[i]) ==> has_key(
            update_run(m, targets, made, ids, dates),
            targets[i],
        ),
        forall|x: Seq<char>| #[trigger] has_key(update_run(m, targets, made, ids, dates), x) ==> has_key(m, x)
            || exists|i: int| 0 <= i < targets.len() && targets[i] == x && made(x),
    decreases targets.len(),
{
    if targets.len() > 0 {
        let n = targets.len() - 1;
        let prev = update_run(m, targets.drop_last(), made, ids, dates);
        law_update_run_records(m, targets.drop_last(), made, ids, dates);
        let run = update_run(m, targets, made, ids, dates);
        assert(run == update_step(prev, targets[n], made(targets[n]), ids(n), dates(n)));
        if made(targets[n]) {
            let v = ContentView { id: ids(n), file_name: targets[n], added: dates(n) };
            law_record_is_map_insert(prev, targets[n], v);
            assert forall|x: Seq<char>| has_key(prev, x) implies #[trigger] has_key(run, x) by {
                lemma_insert_keys(prev, targets[n], v, x);
            }
            assert forall|i: int| 0 <= i < targets.len() && made(#[trigger] targets[i]) implies has_key(run, targets[i]) by {
                lemma_insert_keys(prev, targets[n], v, targets[i]);
                if i < n {
                    assert(targets.drop_last()[i] == targets[i]);
                }
            }
            assert forall|x: Seq<char>| #[trigger] has_key(run, x) implies has_key(m, x)
                || exists|i: int| 0 <= i < targets.len() && targets[i] == x && made(x) by {
                lemma_insert_keys(prev, targets[n], v, x);
                if x == targets[n] {
                    assert(targets[n] == x && made(x));
                } else if !has_key(m, x) {
                    assert(has_key(prev, x));
                    let k = choose|k: int| 0 <= k < targets.drop_last().len() && targets.drop_last()[k] == x && made(x);
                    assert(targets[k] == x);
                }
            }
        } else {
            assert forall|i: int| 0 <= i < targets.len() && made(#[trigger] targets[i]) implies has_key(run, targets[i]) by {
                if i < n {
                    assert(targets.drop_last()[i] == targets[i]);
                }
            }
            assert forall|x: Seq<char>| #[trigger] has_key(run, x) implies has_key(m, x)
                || exists|i: int| 0 <= i < targets.len() && targets[i] == x && made(x) by {
                if !has_key(m, x) {
                    assert(has_key(prev, x));
                    let k = choose|k: int| 0 <= k < targets.drop_last().len() && targets.drop_last()[k] == x && made(x);
                    assert(targets[k] == x);
                }
            }
        }
    }
}

/// An update run over archives none of which gets a thumbnail changes nothing.
proof fn lemma_run_without_thumbnails(
    m: Seq<EntryView>,
    targets: Seq<Seq<char>>,
    made: spec_fn(Seq<char>) -> bool,
    ids: spec_fn(int) -> Seq<char>,
    dates: spec_fn(int) -> Date,
)
    requires
        forall|i: int| 0 <= i < targets.len() ==> !made(#[trigger] targets[i]),
    ensures
        update_run(m, targets, made, ids, dates) == m,
    decreases targets.len(),
{
    if targets.len() > 0 {
        assert forall|i: int| 0 <= i < targets.drop_last().len() implies !made(#[trigger] targets.drop_last()[i]) by {
            assert(targets.drop_last()[i] == targets[i]);
        }
        lemma_run_without_thumbnails(m, targets.drop_last(), made, ids, dates);
        assert(!made(targets[targets.len() - 1]));
    }
}

/// Updating a library twice in a row, where making a thumbnail has the same
/// outcome for the same archive both times, leaves the metadata as the first
/// update left it: the second update finds as pending only archives whose
/// thumbnail could not be made, and records none of them.
pub proof fn law_update_twice_changes_nothing(
    m: Seq<EntryView>,
    zips: Seq<Seq<char>>,
    made: spec_fn(Seq<char>) -> bool,
    ids1: spec_fn(int) -> Seq<char>,
    dates1: spec_fn(int) -> Date,
    ids2: spec_fn(int) -> Seq<char>,
    dates2: spec_fn(int) -> Date,
)
    requires
        keys_distinct(m),
    ensures
        ({
            let m1 = update_run(m, not_yet_recorded(zips, m), made, ids1, dates1);
            update_run(m1, not_yet_recorded(zips, m1), made, ids2, dates2) == m1
        }),
{
    let targets1 = not_yet_recorded(zips, m);
    let m1 = update_run(m, targets1, made, ids1, dates1);
    let targets2 = not_yet_recorded(zips, m1);
    law_update_run_records(m, targets1, made, ids1, dates1);
    let p1 = |n: Seq<char>| !has_key(m, n);
    let p2 = |n: Seq<char>| !has_key(m1, n);
    assert forall|i: int| 0 <= i < targets2.len() implies !made(#[trigger] targets2[i]) by {
        let n = targets2[i];
        zips.lemma_filter_pred(p2, i);
        assert(!has_key(m1, n));
        lemma_filter_subset(zips, p2, i);
        let j = choose|j: int| 0 <= j < zips.len() && zips[j] == n;
        if has_key(m, n) {
            assert(has_key(m1, n));
        }
        zips.lemma_filter_contains(p1, j);
        let k = choose|k: int| 0 <= k < targets1.len() && targets1[k] == n;
        if made(n) {
            assert(made(targets1[k]));
            assert(has_key(m1, targets1[k]));
        }
    }
    lemma_run_without_thumbnails(m1, targets2, made, ids2, dates2);
}

/// The 6-bit value of a character of the standard base64 alphabet (-1 for
/// any other character).
pub open spec fn base64_value(c: char) -> int {
    let x = c as int;
    if 65 <= x <= 90 {
        x - 65
    } else if 97 <= x <= 122 {
        x - 97 + 26
    } else if 48 <= x <= 57 {
        x - 48 + 52
    } else if c == '+' {
        62
    } else if c == '/' {
        63
    } else {
        -1
    }
}

/// Decoding of standard padded base64, four characters at a time.
pub open spec fn base64_decode(s: Seq<char>) -> Seq<u8>
    decreases s.len(),
{
    if s.len() < 4 {
        Seq::empty()
    } else {
        let v0 = base64_value(s[0]);
        let v1 = base64_value(s[1]);
        let v2 = base64_value(s[2]);
        let v3 = base64_value(s[3]);
        let x0 = (v0 * 4 + v1 / 16) as u8;
        let x1 = ((v1 % 16) * 16 + v2 / 4) as u8;
        let x2 = ((v2 % 4) * 64 + v3) as u8;
        if s[2] == '=' {
            seq![x0]
        } else if s[3] == '=' {
            seq![x0, x1]
        } else {
            seq![x0, x1, x2] + base64_decode(s.subrange(4, s.len() as int))
        }
    }
}

/// Each 6-bit value is written as a character that reads back as it and is
/// not the padding character.
proof fn lemma_base64_char(v: int)
    requires
        0 <= v < 64,
    ensures
        base64_value(base64_char(v)) == v,
        base64_char(v) != '=',
{
    if v < 26 {
        assert(((65 + v) as char) as int == 65 + v);
    } else if v < 52 {
        assert(((97 + (v - 26)) as char) as int == 97 + (v - 26));
    } else if v < 62 {
        assert(((48 + (v - 52)) as char) as int == 48 + (v - 52));
    }
}

/// The arithmetic of one group of three bytes.
proof fn lemma_base64_group(b0: int, b1: int, b2: int)
    requires
        0 <= b0 < 256,
        0 <= b1 < 256,
        0 <= b2 < 256,
    ensures
        0 <= b0 / 4 < 64,
        0 <= (b0 % 4) * 16 + b1 / 16 < 64,
        0 <= (b1 % 16) * 4 + b2 / 64 < 64,
        0 <= (b1 % 16) * 4 < 64,
        0 <= (b0 % 4) * 16 < 64,
        0 <= b2 % 64 < 64,
        (b0 / 4) * 4 + ((b0 % 4) * 16 + b1 / 16) / 16 == b0,
        (b0 / 4) * 4 + ((b0 % 4) * 16) / 16 == b0,
        (((b0 % 4) * 16 + b1 / 16) % 16) * 16 + ((b1 % 16) * 4 + b2 / 64) / 4 == b1,
        (((b0 % 4) * 16 + b1 / 16) % 16) * 16 + ((b1 % 16) * 4) / 4 == b1,
        (((b1 % 16) * 4 + b2 / 64) % 4) * 64 + b2 % 64 == b2,
{
}

/// The page data the viewer receives decodes back to the page's bytes:
/// decoding the standard base64 of any byte string gives the bytes again.
pub proof fn law_page_data_decodes_to_bytes(b: Seq<u8>)
    ensures
        base64_decode(base64_standard(b)) == b,
    decreases b.len(),
{
    if b.len() > 0 {
        let b0 = b[0] as int;
        let b1 = if b.len() > 1 { b[1] as int } else { 0 };
        let b2 = if b.len() > 2 { b[2] as int } else { 0 };
        lemma_base64_group(b0, b1, b2);
        let s = base64_standard(b);
        lemma_base64_char(b0 / 4);
        if b.len() == 1 {
            lemma_base64_char((b0 % 4) * 16);
            assert(s.len() == 4);
            assert(base64_decode(s) =~= b);
        } else if b.len() == 2 {
            lemma_base64_char((b0 % 4) * 16 + b1 / 16);
            lemma_base64_char((b1 % 16) * 4);
            assert(base64_decode(s) =~= b);
        } else {
            lemma_base64_char((b0 % 4) * 16 + b1 / 16);
            lemma_base64_char((b1 % 16) * 4 + b2 / 64);
            lemma_base64_char(b2 % 64);
            let rest = b.subrange(3, b.len() as int);
            law_page_data_decodes_to_bytes(rest);
            assert(s.subrange(4, s.len() as int) =~= base64_standard(rest));
            assert(base64_decode(s) =~= seq![b[0], b[1], b[2]] + rest);
            assert(seq![b[0], b[1], b[2]] + rest =~= b);
        }
    }
}

/// A sequence ends with what was appended to it.
proof fn lemma_ends_with_appended(p: Seq<char>, suffix: Seq<char>)
    ensures
        seq_ends_with(p + suffix, suffix),
{
    let n = p + suffix;
    assert(n.subrange(n.len() - suffix.len(), n.len() as int) =~= suffix);
}

/// A sequence that ends with `suffix` is something followed by `suffix`.
proof fn lemma_ends_with_split(n: Seq<char>, suffix: Seq<char>)
    requires
        seq_ends_with(n, suffix),
    ensures
        n == n.subrange(0, n.len() - suffix.len()) + suffix,
{
    assert(n =~= n.subrange(0, n.len() - suffix.len()) + n.subrange(n.len() - suffix.len(), n.len() as int));
}

/// A name is an image name exactly when it is something followed by
/// `.png`, `.jpg` or `.jpeg`, whatever comes before (folders, spaces,
/// non-ASCII characters).
pub proof fn law_image_names(n: Seq<char>)
    ensures
        has_image_suffix_spec(n) <==> exists|p: Seq<char>| {
            ||| n == p + seq!['.', 'p', 'n', 'g']
            ||| n == p + seq!['.', 'j', 'p', 'g']
            ||| n == p + seq!['.', 'j', 'p', 'e', 'g']
        },
{
    let png = seq!['.', 'p', 'n', 'g'];
    let jpg = seq!['.', 'j', 'p', 'g'];
    let jpeg = seq!['.', 'j', 'p', 'e', 'g'];
    if has_image_suffix_spec(n) {
        if seq_ends_with(n, png) {
            lemma_ends_with_split(n, png);
            let p = n.subrange(0, n.len() - 4);
            assert(n == p + png);
        } else if seq_ends_with(n, jpg) {
            lemma_ends_with_split(n, jpg);
            let p = n.subrange(0, n.len() - 4);
            assert(n == p + jpg);
        } else {
            lemma_ends_with_split(n, jpeg);
            let p = n.subrange(0, n.len() - 5);
            assert(n == p + jpeg);
        }
    }
    if exists|p: Seq<char>| {
        ||| n == p + png
        ||| n == p + jpg
        ||| n == p + jpeg
    } {
        let p = choose|p: Seq<char>| {
            ||| n == p + png
            ||| n == p + jpg
            ||| n == p + jpeg
        };
        if n == p + png {
            lemma_ends_with_appended(p, png);
        } else if n == p + jpg {
            lemma_ends_with_appended(p, jpg);
        } else {
            lemma_ends_with_appended(p, jpeg);
        }
    }
}

/// An archive entry is a cover candidate exactly when it was read and its
/// lower-cased name is something followed by `.jpg`, `.jpeg` or `.png`.
pub proof fn law_cover_candidates(names: Seq<Option<Seq<char>>>, lower: Seq<Option<Seq<char>>>, i: int)
    requires
        0 <= i < names.len(),
        i < lower.len(),
    ensures
        is_candidate_with(names, lower, i) <==> {
            &&& names[i] is Some
            &&& lower[i] is Some
            &&& exists|p: Seq<char>| {
                ||| lower[i]->0 == p + seq!['.', 'p', 'n', 'g']
                ||| lower[i]->0 == p + seq!['.', 'j', 'p', 'g']
                ||| lower[i]->0 == p + seq!['.', 'j', 'p', 'e', 'g']
            }
        },
{
    if lower[i] is Some {
        law_image_names(lower[i]->0);
    }
}

/// The media type of a page is PNG exactly when its name is something
/// followed by `.png`, whatever comes before; JPEG otherwise.
pub proof fn law_page_mime(n: Seq<char>)
    ensures
        (exists|p: Seq<char>| n == p + seq!['.', 'p', 'n', 'g']) ==> mime_for_spec(n) == "image/png"@,
        !(exists|p: Seq<char>| n == p + seq!['.', 'p', 'n', 'g']) ==> mime_for_spec(n) == "image/jpeg"@,
{
    let png = seq!['.', 'p', 'n', 'g'];
    if exists|p: Seq<char>| n == p + png {
        let p = choose|p: Seq<char>| n == p + png;
        lemma_ends_with_appended(p, png);
    }
    if seq_ends_with(n, png) {
        lemma_ends_with_split(n, png);
        let p = n.subrange(0, n.len() - 4);
        assert(n == p + png);
    }
}

/// `last_dot` names the position of a `.`, and no later character is one.
proof fn lemma_last_dot(n: Seq<char>)
    ensures
        -1 <= last_dot(n) < n.len(),
        last_dot(n) >= 0 ==> n[last_dot(n)] == '.',
        forall|j: int| last_dot(n) < j < n.len() ==> n[j] != '.',
    decreases n.len(),
{
    if n.len() > 0 && n.last() != '.' {
        lemma_last_dot(n.drop_last());
        assert forall|j: int| last_dot(n) < j < n.len() implies n[j] != '.' by {
            if j < n.len() - 1 {
                assert(n.drop_last()[j] == n[j]);
            }
        }
    }
}

/// The last `.` of a name followed by `.zip` is that of `.zip`.
proof fn lemma_last_dot_of_zip(p: Seq<char>)
    ensures
        last_dot(p + seq!['.', 'z', 'i', 'p']) == p.len(),
{
    let n = p + seq!['.', 'z', 'i', 'p'];
    let n3 = p + seq!['.', 'z', 'i'];
    let n2 = p + seq!['.', 'z'];
    let n1 = p + seq!['.'];
    assert(n.drop_last() =~= n3);
    assert(n3.drop_last() =~= n2);
    assert(n2.drop_last() =~= n1);
    assert(n.last() == 'p' && n3.last() == 'i' && n2.last() == 'z' && n1.last() == '.');
    assert(last_dot(n1) == p.len());
    assert(last_dot(n2) == last_dot(n1));
    assert(last_dot(n3) == last_dot(n2));
    assert(last_dot(n) == last_dot(n3));
}

/// A file name is an archive name exactly when it is a non-empty name
/// followed by `.zip`, whatever that name holds (dots, spaces, non-ASCII
/// characters): `Path::extension` of it is then `zip`.
pub proof fn law_zip_names(n: Seq<char>)
    ensures
        is_zip_name(n) <==> exists|p: Seq<char>| p.len() > 0 && n == p + seq!['.', 'z', 'i', 'p'],
{
    let z = seq!['.', 'z', 'i', 'p'];
    if exists|p: Seq<char>| p.len() > 0 && n == p + z {
        let p = choose|p: Seq<char>| p.len() > 0 && n == p + z;
        lemma_last_dot_of_zip(p);
        assert(n != seq!['.', '.']) by {
            if n == seq!['.', '.'] {
                assert(n.len() == 2);
            }
        }
        assert(n.subrange(p.len() as int + 1, n.len() as int) =~= seq!['z', 'i', 'p']);
        assert(path_extension(n) == Some(seq!['z', 'i', 'p']));
    }
    if is_zip_name(n) {
        lemma_last_dot(n);
        let d = last_dot(n);
        assert(d > 0);
        assert(n.subrange(d + 1, n.len() as int) == seq!['z', 'i', 'p']);
        assert(seq!['z', 'i', 'p'].len() == 3);
        assert(n.subrange(d + 1, n.len() as int).len() == 3);
        let p = n.subrange(0, d);
        assert(n =~= p + z) by {
            assert(n.len() == d + 4);
            assert(n[d] == '.');
            assert(n[d + 1] == n.subrange(d + 1, n.len() as int)[0]);
            assert(n[d + 2] == n.subrange(d + 1, n.len() as int)[1]);
            assert(n[d + 3] == n.subrange(d + 1, n.len() as int)[2]);
        }
        assert(p.len() > 0 && n == p + z);
    }
}

/// `a` and `b` agree on their first `k` characters, and then `a` ends
/// where `b` goes on, or `a`'s next character has the lower code point.
pub open spec fn differs_first_lower_at(a: Seq<char>, b: Seq<char>, k: int) -> bool {
    &&& 0 <= k <= a.len()
    &&& k <= b.len()
    &&& forall|j: int| 0 <= j < k ==> #[trigger] a[j] == b[j]
    &&& ((k == a.len() && k < b.len()) || (k < a.len() && k < b.len() && (a[k] as int) < (b[k] as int)))
}

/// The order of names is code-point lexicographic order, the order of
/// `str`: `a` comes before `b` exactly when, at the first position where
/// they differ, `a`'s character has the lower code point, or `a` is a
/// proper prefix of `b`.
pub proof fn law_lexicographic_order(a: Seq<char>, b: Seq<char>)
    ensures
        seq_lt(a, b) <==> exists|k: int| differs_first_lower_at(a, b, k),
    decreases a.len(),
{
    if a.len() > 0 && b.len() > 0 {
        law_lexicographic_order(a.drop_first(), b.drop_first());
        if a[0] == b[0] {
            if seq_lt(a, b) {
                let k = choose|k: int| differs_first_lower_at(a.drop_first(), b.drop_first(), k);
                assert forall|j: int| 0 <= j < k + 1 implies #[trigger] a[j] == b[j] by {
                    if j > 0 {
                        assert(a.drop_first()[j - 1] == b.drop_first()[j - 1]);
                    }
                }
                assert(differs_first_lower_at(a, b, k + 1));
            }
            if exists|k: int| differs_first_lower_at(a, b, k) {
                let k = choose|k: int| differs_first_lower_at(a, b, k);
                if k == 0 {
                    assert((a[0] as int) < (b[0] as int));
                } else {
                    assert forall|j: int| 0 <= j < k - 1 implies #[trigger] a.drop_first()[j] == b.drop_first()[j] by {
                        assert(a[j + 1] == b[j + 1]);
                    }
                    assert(differs_first_lower_at(a.drop_first(), b.drop_first(), k - 1));
                }
            }
        } else {
            if seq_lt(a, b) {
                assert(differs_first_lower_at(a, b, 0));
            }
            if exists|k: int| differs_first_lower_at(a, b, k) {
                let k = choose|k: int| differs_first_lower_at(a, b, k);
                if k > 0 {
                    assert(a[0] == b[0]);
                }
            }
        }
    } else if a.len() == 0 {
        if b.len() > 0 {
            assert(differs_first_lower_at(a, b, 0));
        }
    } else {
        if exists|k: int| differs_first_lower_at(a, b, k) {
            let k = choose|k: int| differs_first_lower_at(a, b, k);
            assert(k <= b.len());
        }
    }
}

/// The archives pending after a listing are exactly the listed names that
/// have no recorded content, whatever the names hold.
pub proof fn law_pending_are_unrecorded(names: Seq<Seq<char>>, s: Seq<EntryView>, n: Seq<char>)
    ensures
        not_yet_recorded(names, s).contains(n) <==> (names.contains(n) && !has_key(s, n)),
{
    let p = |x: Seq<char>| !has_key(s, x);
    let r = not_yet_recorded(names, s);
    if r.contains(n) {
        let i = choose|i: int| 0 <= i < r.len() && r[i] == n;
        names.lemma_filter_pred(p, i);
        lemma_filter_subset(names, p, i);
    }
    if names.contains(n) && !has_key(s, n) {
        let j = choose|j: int| 0 <= j < names.len() && names[j] == n;
        names.lemma_filter_contains(p, j);
    }
}

/// Where none of the listed archives has a recorded content, all of them
/// are pending, in listing order.
pub proof fn law_all_new_archives_are_pending(names: Seq<Seq<char>>, s: Seq<EntryView>)
    requires
        forall|i: int| 0 <= i < names.len() ==> !has_key(s, #[trigger] names[i]),
    ensures
        not_yet_recorded(names, s) == names,
    decreases names.len(),
{
    reveal_with_fuel(Seq::filter, 1);
    if names.len() > 0 {
        assert forall|i: int| 0 <= i < names.drop_last().len() implies !has_key(s, #[trigger] names.drop_last()[i]) by {
            assert(names.drop_last()[i] == names[i]);
        }
        law_all_new_archives_are_pending(names.drop_last(), s);
        assert(!has_key(s, names[names.len() - 1]));
        assert(names.drop_last().push(names.last()) =~= names);
    }
}

/// The archives of a directory listing are exactly the names of its regular
/// files that are archive names.
pub proof fn law_listed_archives(entries: Seq<DirEntry>, n: Seq<char>)
    ensures
        zip_names(entries).contains(n) <==> exists|i: int| {
            &&& 0 <= i < entries.len()
            &&& #[trigger] entries[i].is_file
            &&& entries[i].name@ == n
            &&& is_zip_name(n)
        },
    decreases entries.len(),
{
    if entries.len() > 0 {
        let rest = entries.drop_last();
        law_listed_archives(rest, n);
        let e = entries.last();
        let r = zip_names(rest);
        if e.is_file && is_zip_name(e.name@) {
            assert(zip_names(entries) == r.push(e.name@));
            if zip_names(entries).contains(n) {
                let k = choose|k: int| 0 <= k < r.len() + 1 && r.push(e.name@)[k] == n;
                if k == r.len() {
                    assert(entries[entries.len() - 1].is_file);
                } else {
                    assert(r[k] == n);
                    let i = choose|i: int| 0 <= i < rest.len() && #[trigger] rest[i].is_file && rest[i].name@ == n && is_zip_name(n);
                    assert(entries[i] == rest[i]);
                }
            }
            if exists|i: int| 0 <= i < entries.len() && #[trigger] entries[i].is_file && entries[i].name@ == n && is_zip_name(n) {
                let i = choose|i: int| 0 <= i < entries.len() && #[trigger] entries[i].is_file && entries[i].name@ == n && is_zip_name(n);
                if i == entries.len() - 1 {
                    assert(r.push(e.name@)[r.len() as int] == n);
                } else {
                    assert(rest[i] == entries[i]);
                    let k = choose|k: int| 0 <= k < r.len() && r[k] == n;
                    assert(r.push(e.name@)[k] == n);
                }
            }
        } else {
            if exists|i: int| 0 <= i < entries.len() && #[trigger] entries[i].is_file && entries[i].name@ == n && is_zip_name(n) {
                let i = choose|i: int| 0 <= i < entries.len() && #[trigger] entries[i].is_file && entries[i].name@ == n && is_zip_name(n);
                assert(i != entries.len() - 1);
                assert(rest[i] == entries[i]);
            }
            if r.contains(n) {
                let i = choose|i: int| 0 <= i < rest.len() && #[trigger] rest[i].is_file && rest[i].name@ == n && is_zip_name(n);
                assert(entries[i] == rest[i]);
            }
        }
    }
}

/// The pages of an archive are exactly its entries whose name is an image
/// name.
pub proof fn law_pages_are_image_entries(names: Seq<String>, x: String)
    ensures
        page_entries(names).contains(x) <==> (names.contains(x) && has_image_suffix_spec(x@)),
    decreases names.len(),
{
    reveal_with_fuel(Seq::filter, 1);
    if names.len() > 0 {
        let rest = names.drop_last();
        law_pages_are_image_entries(rest, x);
        let pr = page_entries(rest);
        let last = names.last();
        if has_image_suffix_spec(last@) {
            assert(page_entries(names) == pr.push(last));
            if page_entries(names).contains(x) {
                let k = choose|k: int| 0 <= k < pr.len() + 1 && pr.push(last)[k] == x;
                if k < pr.len() {
                    assert(pr[k] == x);
                    let j = choose|j: int| 0 <= j < rest.len() && rest[j] == x;
                    assert(names[j] == x);
                } else {
                    assert(names[names.len() - 1] == x);
                }
            }
            if names.contains(x) && has_image_suffix_spec(x@) {
                let j = choose|j: int| 0 <= j < names.len() && names[j] == x;
                if j < names.len() - 1 {
                    assert(rest[j] == x);
                    let k = choose|k: int| 0 <= k < pr.len() && pr[k] == x;
                    assert(pr.push(last)[k] == x);
                } else {
                    assert(pr.push(last)[pr.len() as int] == x);
                }
            }
        } else {
            assert(page_entries(names) == pr);
            if pr.contains(x) {
                let j = choose|j: int| 0 <= j < rest.len() && rest[j] == x;
                assert(names[j] == x);
            }
            if names.contains(x) && has_image_suffix_spec(x@) {
                let j = choose|j: int| 0 <= j < names.len() && names[j] == x;
                assert(j < names.len() - 1);
                assert(rest[j] == x);
            }
        }
    }
}

} // verus!
