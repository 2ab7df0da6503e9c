//! The manifest: one line `"<size>\t<path>\n"` per archived file, sizes in
//! decimal, paths verbatim.
use vstd::prelude::*;
use vstd::string::StringSliceAdditionalSpecFns;
use vstd::utf8::*;

use crate::error::{Error, StaticStrError};
use crate::file_entry::FileEntry;

verus! {

broadcast use vstd::utf8::group_utf8_lib;

/// ASCII tab, the column separator.
pub const TAB: u8 = 9;

/// ASCII line feed, the line terminator.
pub const NEWLINE: u8 = 10;

/// Message of the error for a size column that is not a decimal `usize`.
pub const INVALID_SIZE: &'static str = "invalid size in manifest";

/// Message of the error for a line without a path column.
pub const NO_PATH: &'static str = "no path in manifest";

/// Decimal digits of `n`, most significant first, without leading zeros.
pub open spec fn dec_digits(n: nat) -> Seq<u8>
    decreases n,
{
    if n < 10 {
        seq![(n + 48) as u8]
    } else {
        dec_digits(n / 10).push((n % 10 + 48) as u8)
    }
}

pub open spec fn is_digit(b: u8) -> bool {
    48 <= b <= 57
}

pub open spec fn all_digits(s: Seq<u8>) -> bool {
    forall|i: int| 0 <= i < s.len() ==> is_digit(#[trigger] s[i])
}

/// Value of a string of decimal digits.
pub open spec fn digits_value(s: Seq<u8>) -> nat
    decreases s.len(),
{
    if s.len() == 0 {
        0
    } else {
        digits_value(s.drop_last()) * 10 + (s.last() - 48) as nat
    }
}

/// The size a column denotes: a nonempty run of digits whose value fits a `usize`.
pub open spec fn size_field(s: Seq<u8>) -> Option<nat> {
    if s.len() > 0 && all_digits(s) && digits_value(s) <= usize::MAX {
        Some(digits_value(s))
    } else {
        None
    }
}

/// Index of the first byte `c` of `b`, if any.
pub open spec fn first_of(b: Seq<u8>, c: u8) -> Option<nat>
    decreases b.len(),
{
    if b.len() == 0 {
        None
    } else if b[0] == c {
        Some(0)
    } else {
        match first_of(b.drop_first(), c) {
            Some(t) => Some(t + 1),
            None => None,
        }
    }
}

/// Index of the first tab of `b`, if any.
pub open spec fn first_tab(b: Seq<u8>) -> Option<nat> {
    first_of(b, TAB)
}

/// The size column of a line: what precedes the first tab, or the whole line.
pub open spec fn size_column(b: Seq<u8>) -> Seq<u8> {
    match first_tab(b) {
        Some(t) => b.take(t as int),
        None => b,
    }
}

/// The `(size, path)` a manifest line (without its newline) denotes, if it
/// is well formed: the line is split at its first tab.
pub open spec fn line_entry(b: Seq<u8>) -> Option<(nat, Seq<char>)> {
    match first_tab(b) {
        None => None,
        Some(t) => match size_field(b.take(t as int)) {
            None => None,
            Some(n) => Some((n, decode_utf8(b.skip(t + 1 as int)))),
        },
    }
}

/// The text of the manifest line of a file, without its newline.
pub open spec fn line_text(size: nat, path: Seq<char>) -> Seq<u8> {
    dec_digits(size) + seq![TAB] + encode_utf8(path)
}

/// The manifest of `entries`, one line each, in order.
pub open spec fn manifest_of(entries: Seq<FileEntry>) -> Seq<u8>
    decreases entries.len(),
{
    if entries.len() == 0 {
        Seq::empty()
    } else {
        let e = entries.last();
        manifest_of(entries.drop_last()) + line_text(e.size_spec(), e.path_spec()) + seq![NEWLINE]
    }
}

/// Appends the decimal digits of `n`.
pub fn push_decimal(n: usize, out: &mut Vec<u8>)
    ensures
        final(out)@ == old(out)@ + dec_digits(n as nat),
    decreases n,
{
    if n >= 10 {
        push_decimal(n / 10, out);
    }
    out.push(((n % 10) as u8) + 48);
    assert(final(out)@ =~= old(out)@ + dec_digits(n as nat));
}

fn push_bytes(out: &mut Vec<u8>, b: &[u8])
    ensures
        final(out)@ == old(out)@ + b@,
{
    let mut i: usize = 0;
    while i < b.len()
        invariant
            i <= b@.len(),
            out@ == old(out)@ + b@.take(i as int),
        decreases b.len() - i,
    {
        out.push(b[i]);
        i = i + 1;
        assert(out@ =~= old(out)@ + b@.take(i as int));
    }
    assert(b@.take(b@.len() as int) =~= b@);
}

/// Appends the manifest line of `entry`: its size in decimal, a tab, its
/// path and a newline.
pub fn append_manifest_line(manifest: &mut Vec<u8>, entry: &FileEntry)
    ensures
        final(manifest)@ == old(manifest)@ + line_text(entry.size_spec(), entry.path_spec()) + seq![NEWLINE],
{
    push_decimal(entry.size(), manifest);
    manifest.push(TAB);
    push_bytes(manifest, entry.path().as_bytes());
    manifest.push(NEWLINE);
    assert(final(manifest)@ =~= old(manifest)@ + line_text(entry.size_spec(), entry.path_spec()) + seq![NEWLINE]);
}

/// The manifest of `entries`, one line per entry in the given order.
pub fn build_manifest(entries: &Vec<FileEntry>) -> (r: Vec<u8>)
    ensures
        r@ == manifest_of(entries@),
{
    let mut r: Vec<u8> = Vec::new();
    let mut i: usize = 0;
    while i < entries.len()
        invariant
            i <= entries@.len(),
            r@ == manifest_of(entries@.take(i as int)),
        decreases entries.len() - i,
    {
        append_manifest_line(&mut r, &entries[i]);
        assert(entries@.take(i + 1).drop_last() =~= entries@.take(i as int));
        i = i + 1;
    }
    assert(entries@.take(entries@.len() as int) =~= entries@);
    r
}

proof fn lemma_value_grows(s: Seq<u8>, i: int, j: int)
    requires
        0 <= i <= j <= s.len(),
        all_digits(s),
    ensures
        digits_value(s.take(i)) <= digits_value(s.take(j)),
    decreases j - i,
{
    if i < j {
        lemma_value_grows(s, i, j - 1);
        assert(s.take(j).drop_last() =~= s.take(j - 1));
    }
}

/// The value of the digits `b[0..end)`, when they are a nonempty run of
/// digits whose value fits a `usize`.
pub fn parse_decimal(b: &[u8], end: usize) -> (r: Option<usize>)
    requires
        end <= b@.len(),
    ensures
        r matches Some(v) ==> size_field(b@.take(end as int)) == Some(v as nat),
        r is None ==> size_field(b@.take(end as int)) is None,
{
    if end == 0 {
        return None;
    }
    let mut acc: usize = 0;
    let mut i: usize = 0;
    while i < end
        invariant
            i <= end <= b@.len(),
            all_digits(b@.take(i as int)),
            acc == digits_value(b@.take(i as int)),
        decreases end - i,
    {
        let c = b[i];
        if c < 48 || c > 57 {
            assert(!is_digit(b@.take(end as int)[i as int]));
            return None;
        }
        let d = (c - 48) as usize;
        assert(b@.take(i + 1).drop_last() =~= b@.take(i as int));
        let next = match acc.checked_mul(10) {
            Some(x) => x.checked_add(d),
            None => None,
        };
        match next {
            None => {
                proof {
                    if all_digits(b@.take(end as int)) {
                        assert(b@.take(end as int).take(i + 1) =~= b@.take(i + 1));
                        lemma_value_grows(b@.take(end as int), i + 1, end as int);
                        assert(b@.take(end as int).take(end as int) =~= b@.take(end as int));
                    }
                }
                return None;
            },
            Some(v) => {
                acc = v;
            },
        }
        i = i + 1;
        assert(all_digits(b@.take(i as int)));
    }
    Some(acc)
}

proof fn lemma_first_of(b: Seq<u8>, c: u8, t: int)
    requires
        0 <= t <= b.len(),
        forall|k: int| 0 <= k < t ==> b[k] != c,
        t < b.len() ==> b[t] == c,
    ensures
        first_of(b, c) == (if t < b.len() { Some(t as nat) } else { None::<nat> }),
    decreases t,
{
    if t > 0 {
        lemma_first_of(b.drop_first(), c, t - 1);
    }
}

/// An ASCII byte of a UTF-8 text starts a character and is one on its own:
/// the text can be split before it and right after it.
proof fn lemma_ascii_boundaries(b: Seq<u8>, i: int)
    requires
        valid_utf8(b),
        0 <= i < b.len(),
        b[i] < 128,
    ensures
        is_char_boundary(b, i),
        valid_utf8(b.subrange(i, b.len() as int)),
        is_char_boundary(b.subrange(i, b.len() as int), 1),
{
    assert(is_leading_byte_width_1(b[i]));
    assert(is_char_boundary(b, i));
    let rb = b.subrange(i, b.len() as int);
    assert(valid_utf8(rb));
    assert(rb[0] == b[i]);
    reveal_with_fuel(is_char_boundary, 2);
    assert(is_char_boundary(rb, 1));
}

/// The entry of one manifest line, given without its newline: the line is
/// split at its first tab into a decimal size and a path.
pub fn parse_manifest_line(line: &str) -> (r: Result<FileEntry, Error>)
    ensures
        size_field(size_column(line.spec_bytes())) is None ==> r == Err::<FileEntry, Error>(
            Error::StaticStr(StaticStrError(INVALID_SIZE)),
        ),
        size_field(size_column(line.spec_bytes())) is Some && first_tab(line.spec_bytes()) is None
            ==> r == Err::<FileEntry, Error>(Error::StaticStr(StaticStrError(NO_PATH))),
        (r is Ok) <==> line_entry(line.spec_bytes()) is Some,
        r matches Ok(e) ==> line_entry(line.spec_bytes()) == Some((e.size_spec(), e.path_spec())),
{
    let b = line.as_bytes();
    let mut t: usize = 0;
    while t < b.len() && b[t] != TAB
        invariant
            t <= b@.len(),
            forall|k: int| 0 <= k < t ==> b@[k] != TAB,
        decreases b.len() - t,
    {
        t = t + 1;
    }
    proof {
        lemma_first_of(b@, TAB, t as int);
        if t == b@.len() {
            assert(b@.take(t as int) =~= b@);
        }
    }
    let size = match parse_decimal(b, t) {
        None => {
            return Err(Error::StaticStr(StaticStrError(INVALID_SIZE)));
        },
        Some(v) => v,
    };
    if t == b.len() {
        return Err(Error::StaticStr(StaticStrError(NO_PATH)));
    }
    let ghost bytes = line.spec_bytes();
    proof {
        lemma_ascii_boundaries(bytes, t as int);
    }
    let (_, rest) = line.split_at(t);
    let (_, path) = rest.split_at(1);
    proof {
        assert(path.spec_bytes() =~= bytes.skip(t + 1));
    }
    Ok(FileEntry::new(path.to_owned(), size))
}

proof fn lemma_dec_digits(n: nat)
    ensures
        dec_digits(n).len() > 0,
        all_digits(dec_digits(n)),
        digits_value(dec_digits(n)) == n,
        forall|k: int| 0 <= k < dec_digits(n).len() ==> #[trigger] dec_digits(n)[k] != TAB,
    decreases n,
{
    if n >= 10 {
        lemma_dec_digits(n / 10);
        let d = dec_digits(n);
        assert(d.drop_last() =~= dec_digits(n / 10));
        assert(d.last() == (n % 10 + 48) as u8);
        assert((n / 10) * 10 + n % 10 == n);
        assert(digits_value(d) == digits_value(dec_digits(n / 10)) * 10 + n % 10);
        assert forall|k: int| 0 <= k < d.len() implies is_digit(#[trigger] d[k]) by {
            if k < d.len() - 1 {
                assert(d[k] == dec_digits(n / 10)[k]);
            }
        }
    } else {
        let d = dec_digits(n);
        assert(d.drop_last() =~= Seq::<u8>::empty());
        assert(digits_value(d.drop_last()) == 0);
        assert(digits_value(d) == n);
    }
}

/// A manifest line reads back as the size and path it was written from:
/// the size column is the decimal size, and the path is everything after the
/// first tab, tabs included.
pub proof fn lemma_line_round_trip(size: nat, path: Seq<char>)
    requires
        size <= usize::MAX,
    ensures
        line_entry(line_text(size, path)) == Some((size, path)),
{
    lemma_dec_digits(size);
    let d = dec_digits(size);
    let b = line_text(size, path);
    let t = d.len() as int;
    assert forall|k: int| 0 <= k < t implies b[k] != TAB by {
        assert(b[k] == d[k]);
    }
    lemma_first_of(b, TAB, t);
    assert(b.take(t) =~= d);
    assert(b.skip(t + 1) =~= encode_utf8(path));
}

/// The lines of a text: it is split at each newline, and a newline at the
/// very end opens no further line.
pub open spec fn split_lines(b: Seq<u8>) -> Seq<Seq<u8>>
    decreases b.len(),
{
    if b.len() == 0 {
        Seq::empty()
    } else {
        match first_of(b, NEWLINE) {
            Some(i) => if i < b.len() {
                seq![b.take(i as int)] + split_lines(b.skip(i + 1 as int))
            } else {
                seq![b]
            },
            None => seq![b],
        }
    }
}

/// Whether every line of `lines` is a well-formed manifest line.
pub open spec fn all_lines_parse(lines: Seq<Seq<u8>>) -> bool {
    forall|i: int| 0 <= i < lines.len() ==> (#[trigger] line_entry(lines[i])) is Some
}

/// Whether `v` holds the entries that `lines` denote, in order.
pub open spec fn entries_of_lines(v: Seq<FileEntry>, lines: Seq<Seq<u8>>) -> bool {
    &&& v.len() == lines.len()
    &&& forall|i: int|
        0 <= i < lines.len() ==> line_entry(#[trigger] lines[i]) == Some(
            (v[i].size_spec(), v[i].path_spec()),
        )
}

/// The entries of a whole manifest, one per line, in order. Fails with the
/// error of the first malformed line.
pub fn parse_manifest(text: &str) -> (r: Result<Vec<FileEntry>, Error>)
    ensures
        (r is Ok) <==> all_lines_parse(split_lines(text.spec_bytes())),
        r matches Ok(v) ==> entries_of_lines(v@, split_lines(text.spec_bytes())),
{
    let ghost lines = split_lines(text.spec_bytes());
    let mut rest: &str = text;
    let mut v: Vec<FileEntry> = Vec::new();
    let ghost mut done: Seq<Seq<u8>> = Seq::empty();
    loop
        invariant_except_break
            lines == done + split_lines(rest.spec_bytes()),
        invariant
            lines == split_lines(text.spec_bytes()),
            entries_of_lines(v@, done),
        ensures
            lines == done,
            entries_of_lines(v@, done),
        decreases rest.spec_bytes().len(),
    {
        let b = rest.as_bytes();
        if b.len() == 0 {
            assert(lines =~= done);
            break;
        }
        let mut i: usize = 0;
        while i < b.len() && b[i] != NEWLINE
            invariant
                i <= b@.len(),
                forall|k: int| 0 <= k < i ==> b@[k] != NEWLINE,
            decreases b.len() - i,
        {
            i = i + 1;
        }
        proof {
            lemma_first_of(b@, NEWLINE, i as int);
        }
        if i == b.len() {
            let ghost rb = b@;
            assert(split_lines(rb) == seq![rb]);
            match parse_manifest_line(rest) {
                Err(e) => {
                    assert(lines[done.len() as int] == rb);
                    return Err(e);
                },
                Ok(e) => {
                    v.push(e);
                    proof {
                        done = done.push(rb);
                        assert(lines =~= done);
                    }
                    break;
                },
            }
        }
        let ghost rb = b@;
        proof {
            lemma_ascii_boundaries(rb, i as int);
        }
        let (line, tail) = rest.split_at(i);
        let (_, next) = tail.split_at(1);
        proof {
            assert(line.spec_bytes() =~= rb.take(i as int));
            assert(next.spec_bytes() =~= rb.skip(i + 1 as int));
            assert(lines[done.len() as int] == line.spec_bytes());
        }
        match parse_manifest_line(line) {
            Err(e) => {
                return Err(e);
            },
            Ok(e) => {
                v.push(e);
            },
        }
        proof {
            assert(lines =~= done.push(line.spec_bytes()) + split_lines(next.spec_bytes()));
            done = done.push(line.spec_bytes());
        }
        rest = next;
    }
    Ok(v)
}

proof fn lemma_manifest_front(entries: Seq<FileEntry>)
    requires
        entries.len() > 0,
    ensures
        manifest_of(entries) =~= line_text(entries[0].size_spec(), entries[0].path_spec()) + seq![
            NEWLINE,
        ] + manifest_of(entries.drop_first()),
    decreases entries.len(),
{
    if entries.len() > 1 {
        let init = entries.drop_last();
        let tail = entries.drop_first();
        lemma_manifest_front(init);
        assert(init.drop_first() =~= tail.drop_last());
        assert(init[0] == entries[0]);
        assert(tail.last() == entries.last());
        let e0 = entries[0];
        let el = entries.last();
        let l0 = line_text(e0.size_spec(), e0.path_spec()) + seq![NEWLINE];
        let ll = line_text(el.size_spec(), el.path_spec()) + seq![NEWLINE];
        assert(manifest_of(entries) =~= manifest_of(init) + ll);
        assert(manifest_of(tail) =~= manifest_of(tail.drop_last()) + ll);
        assert(manifest_of(init) =~= l0 + manifest_of(init.drop_first()));
    } else {
        assert(entries.drop_first() =~= Seq::<FileEntry>::empty());
        assert(entries.drop_last() =~= Seq::<FileEntry>::empty());
        assert(entries.last() == entries[0]);
        assert(manifest_of(entries.drop_last()) =~= Seq::<u8>::empty());
        assert(manifest_of(entries.drop_first()) =~= Seq::<u8>::empty());
    }
}

proof fn lemma_split_first_line(l: Seq<u8>, rest: Seq<u8>)
    requires
        !l.contains(NEWLINE),
    ensures
        split_lines(l + seq![NEWLINE] + rest) == seq![l] + split_lines(rest),
{
    let m = l + seq![NEWLINE] + rest;
    assert forall|k: int| 0 <= k < l.len() implies m[k] != NEWLINE by {
        assert(m[k] == l[k]);
        if l[k] == NEWLINE {
            assert(l.contains(NEWLINE));
        }
    }
    lemma_first_of(m, NEWLINE, l.len() as int);
    assert(m.take(l.len() as int) =~= l);
    assert(m.skip(l.len() + 1 as int) =~= rest);
}

/// Reading back the manifest of `entries` gives one line per entry, and each
/// line denotes exactly its entry's size and path, as long as no path holds
/// a newline (no byte of its UTF-8 encoding is a line feed).
pub proof fn lemma_manifest_round_trip(entries: Seq<FileEntry>)
    requires
        forall|i: int|
            0 <= i < entries.len() ==> !encode_utf8(#[trigger] entries[i].path_spec()).contains(
                NEWLINE,
            ),
    ensures
        entries_of_lines(entries, split_lines(manifest_of(entries))),
        all_lines_parse(split_lines(manifest_of(entries))),
    decreases entries.len(),
{
    if entries.len() == 0 {
        assert(split_lines(manifest_of(entries)) =~= Seq::<Seq<u8>>::empty());
    } else {
        let e = entries[0];
        let tail = entries.drop_first();
        assert forall|i: int| 0 <= i < tail.len() implies !encode_utf8(
            #[trigger] tail[i].path_spec(),
        ).contains(NEWLINE) by {
            assert(tail[i] == entries[i + 1]);
        }
        lemma_manifest_round_trip(tail);
        lemma_manifest_front(entries);
        e.lemma_size_fits();
        let l = line_text(e.size_spec(), e.path_spec());
        lemma_no_newline(e.size_spec(), e.path_spec());
        lemma_split_first_line(l, manifest_of(tail));
        lemma_line_round_trip(e.size_spec(), e.path_spec());
        let lines = split_lines(manifest_of(entries));
        assert(lines == seq![l] + split_lines(manifest_of(tail)));
        assert forall|i: int| 0 <= i < lines.len() implies line_entry(#[trigger] lines[i]) == Some(
            (entries[i].size_spec(), entries[i].path_spec()),
        ) by {
            if i > 0 {
                assert(lines[i] == split_lines(manifest_of(tail))[i - 1]);
                assert(entries[i] == tail[i - 1]);
            }
        }
    }
}

proof fn lemma_no_newline(size: nat, path: Seq<char>)
    requires
        !encode_utf8(path).contains(NEWLINE),
    ensures
        !line_text(size, path).contains(NEWLINE),
{
    lemma_dec_digits(size);
    let l = line_text(size, path);
    let d = dec_digits(size);
    if l.contains(NEWLINE) {
        let k = choose|k: int| 0 <= k < l.len() && l[k] == NEWLINE;
        if k < d.len() {
            assert(l[k] == d[k]);
        } else if k > d.len() {
            assert(l[k] == encode_utf8(path)[k - d.len() - 1]);
        }
    }
}

} // verus!
