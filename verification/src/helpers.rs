//! Configuration entries, path patterns, ordering of paths, and the small
//! clock and random helpers the feeder draws on.
use vstd::prelude::*;
use vstd::utf8::*;
use vstd::string::StringSliceAdditionalSpecFns;
use crate::sys::{duration_since, duration_subsec_nanos, random_below, system_now, thread_rng, unix_epoch};
use crate::text::{
    char_views, chars_of, contains_bytes, find_bytes, first_index, slice_from, slice_range,
    split, split_chars, string_of, string_views, trim, trim_chars, push_char,
};

verus! {

/// A configuration entry as text: name and value.
pub type Entry = (Seq<char>, Seq<char>);

/// The text of a list of configuration entries.
pub open spec fn entry_views(v: Seq<(String, String)>) -> Seq<Entry> {
    v.map_values(|p: (String, String)| (p.0@, p.1@))
}

/// The part of a line before its first `#` (the whole line without one).
pub open spec fn before_comment(line: Seq<char>) -> Seq<char> {
    match line.index_of_first('#') {
        Some(i) => line.take(i),
        None => line,
    }
}

/// The entry one configuration line holds: `name = value` before any `#`,
/// both sides trimmed, where the first `=` is not the line's first character.
pub open spec fn conf_line(line: Seq<char>) -> Option<Entry> {
    let g = before_comment(line);
    match g.index_of_first('=') {
        Some(i) => if i > 0 {
            Some((trim(g.take(i)), trim(g.skip(i + 1))))
        } else {
            None
        },
        None => None,
    }
}

/// The entries of a sequence of lines, in order.
pub open spec fn conf_lines(lines: Seq<Seq<char>>) -> Seq<Entry>
    decreases lines.len(),
{
    if lines.len() == 0 {
        Seq::empty()
    } else {
        let r = conf_lines(lines.drop_last());
        match conf_line(lines.last()) {
            Some(e) => r.push(e),
            None => r,
        }
    }
}

/// The entries of a configuration text: its lines are the pieces between
/// newlines.
pub open spec fn conf_entries(raw: Seq<char>) -> Seq<Entry> {
    conf_lines(split(raw, '\n'))
}

/// Reads the entries of a configuration text (the contents of a `.conf`
/// file) in the order of their lines.
pub fn parse_conf(raw: &str) -> (r: Vec<(String, String)>)
    ensures
        entry_views(r@) == conf_entries(raw@),
{
    let chars = chars_of(raw);
    let lines = split_chars(&chars, '\n');
    let mut r: Vec<(String, String)> = Vec::new();
    let mut li: usize = 0;
    assert(char_views(lines@).take(0) =~= Seq::<Seq<char>>::empty());
    while li < lines.len()
        invariant
            li <= lines@.len(),
            char_views(lines@) == split(raw@, '\n'),
            entry_views(r@) == conf_lines(char_views(lines@).take(li as int)),
        decreases lines.len() - li,
    {
        let line = &lines[li];
        let ghost lv = line@;
        assert(char_views(lines@)[li as int] == lv);
        let g = match first_index(line, '#') {
            Some(h) => slice_range(line, 0, h),
            None => slice_from(line, 0),
        };
        assert(g@ =~= before_comment(lv));
        assert(char_views(lines@).take(li + 1).drop_last() =~= char_views(lines@).take(li as int));
        match first_index(&g, '=') {
            Some(e) => {
                let gl = g.len();
                assert(e < gl);
                if e > 0 {
                    let name = string_of(&trim_chars(&slice_range(&g, 0, e)));
                    let value = string_of(&trim_chars(&slice_from(&g, e + 1)));
                    assert(g@.subrange(0, e as int) =~= g@.take(e as int));
                    r.push((name, value));
                    assert(entry_views(r@) =~= conf_lines(char_views(lines@).take(li as int)).push(
                        (trim(g@.take(e as int)), trim(g@.skip(e + 1))),
                    ));
                }
            },
            None => {},
        }
        li += 1;
    }
    assert(char_views(lines@).take(lines@.len() as int) =~= char_views(lines@));
    r
}

/// The UTF-8 bytes of a text.
pub open spec fn bytes_of(s: Seq<char>) -> Seq<u8> {
    encode_utf8(s)
}

/// An entry name is selected by `m` when `m` occurs in it (`str::find`).
pub open spec fn key_matches(k: Seq<char>, m: Seq<char>) -> bool {
    contains_bytes(bytes_of(k), bytes_of(m))
}

/// The name a selected entry gets: the bytes of `k` past the length of `m`,
/// or `k` itself where nothing is left.
pub open spec fn filtered_item(k: Seq<char>, m: Seq<char>) -> Seq<char> {
    let rest = bytes_of(k).skip(bytes_of(m).len() as int);
    if rest.len() == 0 {
        k
    } else {
        decode_utf8(rest)
    }
}

/// The entries of `src` whose names `m` selects, renamed by `filtered_item`,
/// in order.
pub open spec fn filtered(src: Seq<Entry>, m: Seq<char>) -> Seq<Entry>
    decreases src.len(),
{
    if src.len() == 0 {
        Seq::empty()
    } else {
        let r = filtered(src.drop_last(), m);
        let e = src.last();
        if key_matches(e.0, m) {
            r.push((filtered_item(e.0, m), e.1))
        } else {
            r
        }
    }
}

/// Every name that `m` selects can be cut at the byte length of `m` (the cut
/// falls on a character boundary; otherwise the slicing panics).
pub open spec fn cuts_cleanly(src: Seq<Entry>, m: Seq<char>) -> bool {
    forall|i: int|
        0 <= i < src.len() && key_matches(#[trigger] src[i].0, m) ==> is_char_boundary(
            bytes_of(src[i].0),
            bytes_of(m).len() as int,
        )
}

/// The entries whose names contain `mat`, each renamed to what follows the
/// first `mat.len()` bytes of its name (or kept whole where nothing follows).
pub fn _filtered(src: &Vec<(String, String)>, mat: &str) -> (r: Vec<(String, String)>)
    requires
        cuts_cleanly(entry_views(src@), mat@),
    ensures
        entry_views(r@) == filtered(entry_views(src@), mat@),
{
    let mut r: Vec<(String, String)> = Vec::new();
    let mb = mat.as_bytes();
    let ghost sv = entry_views(src@);
    let mut i: usize = 0;
    assert(sv.take(0) =~= Seq::<Entry>::empty());
    while i < src.len()
        invariant
            i <= src@.len(),
            sv == entry_views(src@),
            mb@ == bytes_of(mat@),
            cuts_cleanly(sv, mat@),
            entry_views(r@) == filtered(sv.take(i as int), mat@),
        decreases src.len() - i,
    {
        let k = src[i].0.as_str();
        let kb = k.as_bytes();
        assert(sv[i as int] == (src@[i as int].0@, src@[i as int].1@));
        assert(sv.take(i + 1).drop_last() =~= sv.take(i as int));
        if find_bytes(kb, mb).is_some() {
            assert(key_matches(sv[i as int].0, mat@));
            let mid = mb.len();
            assert(k.spec_bytes() == bytes_of(sv[i as int].0));
            assert(is_char_boundary(k.spec_bytes(), mid as int));
            let kl = kb.len();
            let (_, rest) = k.split_at(mid);
            assert(rest.spec_bytes().len() <= kl);
            assert(rest.spec_bytes() =~= bytes_of(sv[i as int].0).skip(bytes_of(mat@).len() as int));
            let item = if rest.len() == 0 {
                assert(src[i as int].0@ == filtered_item(sv[i as int].0, mat@));
                src[i].0.clone()
            } else {
                proof {
                    encode_utf8_decode_utf8(rest@);
                }
                rest.to_owned()
            };
            assert(item@ == filtered_item(sv[i as int].0, mat@));
            r.push((item, src[i].1.clone()));
            assert(entry_views(r@) =~= filtered(sv.take(i as int), mat@).push(
                (filtered_item(sv[i as int].0, mat@), sv[i as int].1),
            ));
        }
        i += 1;
    }
    assert(sv.take(src@.len() as int) =~= sv);
    r
}

/// The value of the first entry that `mat` selects; there must be one (the
/// lookup panics otherwise).
pub fn _single(src: &Vec<(String, String)>, mat: &str) -> (r: String)
    requires
        cuts_cleanly(entry_views(src@), mat@),
        filtered(entry_views(src@), mat@).len() > 0,
    ensures
        r@ == filtered(entry_views(src@), mat@)[0].1,
{
    let f = _filtered(src, mat);
    assert(entry_views(f@)[0] == (f@[0].0@, f@[0].1@));
    f[0].1.clone()
}

} // verus!

verus! {

/// A directory pattern `root{a|b|c}` can be expanded without a slicing panic:
/// where it holds a `{`, that is not its last character and its last
/// character is a one-byte (ASCII) one.
pub open spec fn pattern_well_formed(p: Seq<char>) -> bool {
    match p.index_of_first('{') {
        Some(i) => i + 1 < p.len() && (p.last() as u32) < 0x80,
        None => true,
    }
}

/// The directories a pattern names: for `root{a|b}` (the last character
/// dropped as the closing brace), `root/a` and `root/b`, in the order written;
/// `None` for a path without `{`.
pub open spec fn pattern_dirs(p: Seq<char>) -> Option<Seq<Seq<char>>> {
    match p.index_of_first('{') {
        Some(i) => Some(
            split(p.subrange(i + 1, p.len() - 1), '|').map_values(
                |r: Seq<char>| p.take(i) + seq!['/'] + r,
            ),
        ),
        None => None,
    }
}

/// The directories a `{..|..}` pattern names, unsorted, or `None` where the
/// path is a plain directory to be listed.
pub fn brace_dirs(path: &str) -> (r: Option<Vec<String>>)
    requires
        pattern_well_formed(path@),
    ensures
        match r {
            Some(v) => pattern_dirs(path@) == Some(string_views(v@)),
            None => pattern_dirs(path@) is None,
        },
{
    let p = chars_of(path);
    match first_index(&p, '{') {
        None => None,
        Some(i) => {
            let pl = p.len();
            assert(i < pl);
            let root = slice_range(&p, 0, i);
            let inner = slice_range(&p, i + 1, p.len() - 1);
            let pieces = split_chars(&inner, '|');
            let mut out: Vec<String> = Vec::new();
            let mut k: usize = 0;
            let ghost want = split(inner@, '|').map_values(
                |r: Seq<char>| p@.take(i as int) + seq!['/'] + r,
            );
            assert(root@ =~= p@.take(i as int));
            while k < pieces.len()
                invariant
                    k <= pieces@.len(),
                    char_views(pieces@) == split(inner@, '|'),
                    root@ == p@.take(i as int),
                    want == split(inner@, '|').map_values(
                        |r: Seq<char>| p@.take(i as int) + seq!['/'] + r,
                    ),
                    string_views(out@) == want.take(k as int),
                decreases pieces.len() - k,
            {
                let mut s = string_of(&root);
                push_char(&mut s, '/');
                let piece = string_of(&pieces[k]);
                s.append(piece.as_str());
                assert(char_views(pieces@)[k as int] == pieces@[k as int]@);
                assert(s@ =~= want[k as int]);
                let ghost before = string_views(out@);
                out.push(s);
                assert(string_views(out@) =~= before.push(s@));
                assert(want.take(k + 1) =~= want.take(k as int).push(want[k as int]));
                k += 1;
            }
            assert(want.take(pieces@.len() as int) =~= want);
            Some(out)
        },
    }
}

/// Lexicographic order of texts by code point, which is the order of their
/// UTF-8 bytes and so the order `String`'s `Ord` gives.
pub open spec fn lex_le(a: Seq<char>, b: Seq<char>) -> bool
    decreases a.len(),
{
    if a.len() == 0 {
        true
    } else if b.len() == 0 {
        false
    } else if a[0] != b[0] {
        (a[0] as u32) < (b[0] as u32)
    } else {
        lex_le(a.drop_first(), b.drop_first())
    }
}

proof fn lemma_char_u32_distinct(c: char, d: char)
    requires
        c != d,
    ensures
        (c as u32) != (d as u32),
{
    if (c as u32) == (d as u32) {
        char_u32_cast(c, c as u32);
        char_u32_cast(d, d as u32);
    }
}

/// Every text is ordered before itself.
pub proof fn lemma_lex_refl(a: Seq<char>)
    ensures
        lex_le(a, a),
    decreases a.len(),
{
    if a.len() > 0 {
        lemma_lex_refl(a.drop_first());
    }
}

/// Any two texts are ordered one way or the other.
pub proof fn lemma_lex_total(a: Seq<char>, b: Seq<char>)
    ensures
        lex_le(a, b) || lex_le(b, a),
    decreases a.len(),
{
    if a.len() > 0 && b.len() > 0 {
        if a[0] == b[0] {
            lemma_lex_total(a.drop_first(), b.drop_first());
        } else {
            lemma_char_u32_distinct(a[0], b[0]);
        }
    }
}

/// The order is transitive.
pub proof fn lemma_lex_transitive(a: Seq<char>, b: Seq<char>, c: Seq<char>)
    requires
        lex_le(a, b),
        lex_le(b, c),
    ensures
        lex_le(a, c),
    decreases a.len(),
{
    if a.len() > 0 && b.len() > 0 && c.len() > 0 && a[0] == b[0] && b[0] == c[0] {
        lemma_lex_transitive(a.drop_first(), b.drop_first(), c.drop_first());
    }
}

/// The order is antisymmetric: texts ordered both ways are equal.
pub proof fn lemma_lex_antisymmetric(a: Seq<char>, b: Seq<char>)
    requires
        lex_le(a, b),
        lex_le(b, a),
    ensures
        a == b,
    decreases a.len(),
{
    if a.len() > 0 && b.len() > 0 {
        if a[0] == b[0] {
            lemma_lex_antisymmetric(a.drop_first(), b.drop_first());
            assert(a =~= seq![a[0]] + a.drop_first());
            assert(b =~= seq![b[0]] + b.drop_first());
        } else {
            lemma_char_u32_distinct(a[0], b[0]);
        }
    } else {
        assert(a.len() == 0 && b.len() == 0);
        assert(a =~= b);
    }
}

/// Executable comparison of two texts.
pub fn lex_le_chars(a: &[char], b: &[char]) -> (r: bool)
    ensures
        r == lex_le(a@, b@),
{
    let mut i: usize = 0;
    assert(a@.skip(0) =~= a@);
    assert(b@.skip(0) =~= b@);
    while i < a.len() && i < b.len() && a[i] == b[i]
        invariant
            i <= a@.len(),
            i <= b@.len(),
            lex_le(a@, b@) == lex_le(a@.skip(i as int), b@.skip(i as int)),
        decreases a.len() - i,
    {
        assert(a@.skip(i as int).drop_first() =~= a@.skip(i + 1));
        assert(b@.skip(i as int).drop_first() =~= b@.skip(i + 1));
        i += 1;
    }
    if i == a.len() {
        true
    } else if i == b.len() {
        false
    } else {
        (a[i] as u32) < (b[i] as u32)
    }
}

/// The texts are in ascending order.
pub open spec fn sorted(s: Seq<Seq<char>>) -> bool {
    forall|i: int, j: int| 0 <= i < j < s.len() ==> lex_le(#[trigger] s[i], #[trigger] s[j])
}

proof fn lemma_insert_multiset<A>(s: Seq<A>, pos: int, x: A)
    requires
        0 <= pos <= s.len(),
    ensures
        s.insert(pos, x).to_multiset() =~= s.to_multiset().insert(x),
{
    broadcast use vstd::seq_lib::group_to_multiset_ensures;

    let t = s.insert(pos, x);
    s.insert_ensures(pos, x);
    assert(t.remove(pos) =~= s);
    assert(t.contains(x)) by {
        assert(t[pos] == x);
    }
    assert(t.to_multiset().remove(x) =~= s.to_multiset());
    assert(t.to_multiset().count(x) > 0);
}

/// Sorts paths in ascending order, as `Vec::sort` on `String`s does: the
/// result is in order and holds the same paths as many times each.
pub fn sort_paths(v: Vec<String>) -> (r: Vec<String>)
    ensures
        sorted(string_views(r@)),
        string_views(r@).to_multiset() == string_views(v@).to_multiset(),
{
    broadcast use vstd::seq_lib::group_to_multiset_ensures;

    let mut out: Vec<String> = Vec::new();
    let mut keys: Vec<Vec<char>> = Vec::new();
    let mut i: usize = 0;
    let ghost sv = string_views(v@);
    assert(sv.take(0) =~= Seq::<Seq<char>>::empty());
    while i < v.len()
        invariant
            i <= v@.len(),
            sv == string_views(v@),
            char_views(keys@) == string_views(out@),
            sorted(string_views(out@)),
            string_views(out@).to_multiset() == sv.take(i as int).to_multiset(),
        decreases v.len() - i,
    {
        let x = v[i].clone();
        let xk = chars_of(x.as_str());
        let ghost cur = string_views(out@);
        let mut pos: usize = 0;
        while pos < keys.len() && lex_le_chars(&keys[pos], &xk)
            invariant
                pos <= keys@.len(),
                char_views(keys@) == cur,
                forall|j: int| 0 <= j < pos ==> lex_le(#[trigger] cur[j], xk@),
            decreases keys.len() - pos,
        {
            assert(char_views(keys@)[pos as int] == keys@[pos as int]@);
            pos += 1;
        }
        proof {
            if pos < keys@.len() {
                assert(char_views(keys@)[pos as int] == keys@[pos as int]@);
                assert(!lex_le(cur[pos as int], xk@));
                lemma_lex_total(cur[pos as int], xk@);
                assert forall|j: int| pos <= j < cur.len() implies lex_le(xk@, #[trigger] cur[j]) by {
                    if j > pos {
                        lemma_lex_transitive(xk@, cur[pos as int], cur[j]);
                    }
                }
            }
        }
        keys.insert(pos, xk);
        out.insert(pos, x);
        let ghost nxt = string_views(out@);
        assert(nxt =~= cur.insert(pos as int, v@[i as int]@));
        assert(char_views(keys@) =~= nxt);
        proof {
            cur.insert_ensures(pos as int, v@[i as int]@);
            assert forall|a: int, b: int| 0 <= a < b < nxt.len() implies lex_le(
                #[trigger] nxt[a],
                #[trigger] nxt[b],
            ) by {
                if a < pos && b < pos {
                } else if a < pos && b == pos {
                } else if a < pos && b > pos {
                    assert(nxt[b] == cur[b - 1]);
                } else if a == pos {
                    assert(nxt[b] == cur[b - 1]);
                } else {
                    assert(nxt[a] == cur[a - 1]);
                    assert(nxt[b] == cur[b - 1]);
                }
            }
            lemma_insert_multiset(cur, pos as int, v@[i as int]@);
            assert(sv[i as int] == v@[i as int]@);
            assert(sv.take(i + 1) =~= sv.take(i as int).push(sv[i as int]));
            vstd::seq_lib::to_multiset_build(sv.take(i as int), sv[i as int]);
            assert(nxt.to_multiset() =~= sv.take(i + 1).to_multiset());
        }
        i += 1;
    }
    assert(sv.take(v@.len() as int) =~= sv);
    out
}

} // verus!

verus! {

/// The nanoseconds within the current second of the system clock, read
/// against the UNIX epoch; `None` when the clock reads before the epoch.
pub fn nanos() -> (r: Option<u32>)
    ensures
        r matches Some(n) ==> n < 1_000_000_000,
{
    let now = system_now();
    let epoch = unix_epoch();
    match duration_since(&now, &epoch) {
        Some(d) => Some(duration_subsec_nanos(&d)),
        None => None,
    }
}

/// A uniform draw from `0..limit` of the thread's generator.
fn rng_rand(limit: usize) -> (r: usize)
    requires
        limit > 0,
    ensures
        r < limit,
{
    let mut rng = thread_rng();
    random_below(&mut rng, limit)
}

/// A random index below `limit`; `0` when there is at most one choice.
pub fn app_rand(limit: usize) -> (r: usize)
    ensures
        limit < 2 ==> r == 0,
        limit >= 2 ==> r < limit,
{
    if limit < 2 {
        return 0;
    }
    rng_rand(limit)
}

/// One step of the three Wichmann-Hill generators.
pub open spec fn wh_step(seeds: Seq<u16>) -> Seq<u16> {
    seq![
        ((171 * seeds[0]) % 30269) as u16,
        ((172 * seeds[1]) % 30307) as u16,
        ((170 * seeds[2]) % 30323) as u16,
    ]
}

/// Advances the three Wichmann-Hill seeds by one step.
pub fn wh_next_seeds(seeds: [u16; 3]) -> (r: [u16; 3])
    ensures
        r@ == wh_step(seeds@),
{
    let a = ((171 * seeds[0] as u64) % 30269) as u16;
    let b = ((172 * seeds[1] as u64) % 30307) as u16;
    let c = ((170 * seeds[2] as u64) % 30323) as u16;
    let r = [a, b, c];
    assert(r@ =~= wh_step(seeds@));
    r
}

/// The index the averaged Wichmann-Hill draw picks below `limit`, from a low
/// draw and a draw mirrored from the top: the midpoint, rounded down, of `low`
/// and `limit - high - 1`; `0` when there is at most one choice.
pub fn wh_rand(limit: usize, low: usize, high: usize) -> (r: usize)
    requires
        limit >= 2 ==> low < limit && high < limit,
    ensures
        limit < 2 ==> r == 0,
        limit >= 2 ==> r == (low + (limit - high - 1)) / 2,
        limit >= 2 ==> r < limit,
{
    if limit < 2 {
        return 0;
    }
    let hv = limit - high - 1;
    (low / 2) + (hv / 2) + ((low % 2 + hv % 2) / 2)
}

} // verus!

verus! {

/// Whether `_filtered(src, mat)` can run: every name containing `mat` can be
/// cut at the byte length of `mat`.
pub fn cuts_cleanly_check(src: &Vec<(String, String)>, mat: &str) -> (b: bool)
    ensures
        b == cuts_cleanly(entry_views(src@), mat@),
{
    let mb = mat.as_bytes();
    let mid = mb.len();
    let ghost sv = entry_views(src@);
    let mut i: usize = 0;
    while i < src.len()
        invariant
            i <= src@.len(),
            sv == entry_views(src@),
            mb@ == bytes_of(mat@),
            mid == mb@.len(),
            forall|j: int|
                0 <= j < i && key_matches(#[trigger] sv[j].0, mat@) ==> is_char_boundary(
                    bytes_of(sv[j].0),
                    bytes_of(mat@).len() as int,
                ),
        decreases src.len() - i,
    {
        let k = src[i].0.as_str();
        assert(sv[i as int] == (src@[i as int].0@, src@[i as int].1@));
        if find_bytes(k.as_bytes(), mb).is_some() {
            if !k.is_char_boundary(mid) {
                assert(key_matches(sv[i as int].0, mat@));
                return false;
            }
        }
        i += 1;
    }
    true
}

} // verus!

verus! {

proof fn lemma_conf_lines_concat(x: Seq<Seq<char>>, y: Seq<Seq<char>>)
    ensures
        conf_lines(x + y) == conf_lines(x) + conf_lines(y),
    decreases y.len(),
{
    if y.len() == 0 {
        assert(x + y =~= x);
        assert(conf_lines(x) + conf_lines(y) =~= conf_lines(x));
    } else {
        assert((x + y).drop_last() =~= x + y.drop_last());
        assert((x + y).last() == y.last());
        lemma_conf_lines_concat(x, y.drop_last());
        match conf_line(y.last()) {
            Some(e) => {
                assert(conf_lines(x) + conf_lines(y.drop_last()).push(e) =~= (conf_lines(x)
                    + conf_lines(y.drop_last())).push(e));
            },
            None => {},
        }
    }
}

/// Configuration texts compose: reading two texts joined by a newline gives
/// the entries of the first followed by those of the second.
pub proof fn lemma_conf_join(a: Seq<char>, b: Seq<char>)
    ensures
        conf_entries(a + seq!['\n'] + b) == conf_entries(a) + conf_entries(b),
{
    crate::text::lemma_split_join(a, b, '\n');
    lemma_conf_lines_concat(split(a, '\n'), split(b, '\n'));
}

/// Two sorted arrangements of the same paths are the same sequence, so the
/// order of the input never shows in the result of `sort_paths`.
pub proof fn lemma_sorted_unique(s: Seq<Seq<char>>, t: Seq<Seq<char>>)
    requires
        sorted(s),
        sorted(t),
        s.to_multiset() == t.to_multiset(),
    ensures
        s == t,
    decreases s.len(),
{
    broadcast use vstd::seq_lib::group_to_multiset_ensures;

    if s.len() == 0 {
        assert(t.len() == 0);
        assert(s =~= t);
    } else {
        assert(s.len() == s.to_multiset().len());
        assert(t.len() == t.to_multiset().len());
        assert(t.len() == s.len());
        let a = s.last();
        let b = t.last();
        assert(s.contains(a));
        assert(t.to_multiset().count(a) > 0);
        assert(t.contains(a));
        assert(t.contains(b));
        assert(s.to_multiset().count(b) > 0);
        assert(s.contains(b));
        let ia = t.index_of(a);
        let ib = s.index_of(b);
        lemma_lex_refl(a);
        lemma_lex_refl(b);
        if ia < t.len() - 1 {
            assert(lex_le(t[ia], t[t.len() - 1]));
        }
        if ib < s.len() - 1 {
            assert(lex_le(s[ib], s[s.len() - 1]));
        }
        assert(lex_le(a, b));
        assert(lex_le(b, a));
        lemma_lex_antisymmetric(a, b);
        assert(s.drop_last() =~= s.remove(s.len() - 1));
        assert(t.drop_last() =~= t.remove(t.len() - 1));
        assert(s.drop_last().to_multiset() =~= s.to_multiset().remove(a));
        assert(t.drop_last().to_multiset() =~= t.to_multiset().remove(b));
        lemma_sorted_unique(s.drop_last(), t.drop_last());
        assert(s =~= s.drop_last().push(a));
        assert(t =~= t.drop_last().push(b));
    }
}

} // verus!

verus! {

proof fn lemma_before_comment_has_no_hash(line: Seq<char>)
    ensures
        !before_comment(line).contains('#'),
        before_comment(line).index_of_first('#') is None,
{
    line.index_of_first_ensures('#');
    let g = before_comment(line);
    assert(!g.contains('#')) by {
        if g.contains('#') {
            let k = choose|k: int| 0 <= k < g.len() && g[k] == '#';
            assert(line[k] == '#');
        }
    }
    g.index_of_first_ensures('#');
}

/// Everything from a line's first `#` on is a comment: the line gives the
/// same entry as its part before the `#`, so the name and value of an entry
/// come wholly from before the comment.
pub proof fn lemma_comment_ignored(line: Seq<char>)
    ensures
        conf_line(line) == conf_line(before_comment(line)),
{
    lemma_before_comment_has_no_hash(line);
}

/// A line whose first `#` comes before any `=` (in particular a line that
/// starts with `#`) gives no entry.
pub proof fn lemma_commented_line_no_entry(line: Seq<char>, h: int)
    requires
        0 <= h < line.len(),
        line[h] == '#',
        forall|j: int| 0 <= j < h ==> line[j] != '=',
    ensures
        conf_line(line) is None,
{
    line.index_of_first_ensures('#');
    let g = before_comment(line);
    assert(g.len() <= h);
    assert(!g.contains('=')) by {
        if g.contains('=') {
            let k = choose|k: int| 0 <= k < g.len() && g[k] == '=';
            assert(line[k] == '=');
        }
    }
    g.index_of_first_ensures('=');
}

/// Appending a commented-out line to a configuration text adds no entry.
pub proof fn lemma_comment_line_adds_nothing(a: Seq<char>, c: Seq<char>)
    requires
        !c.contains('\n'),
    ensures
        conf_entries(a + seq!['\n'] + (seq!['#'] + c)) == conf_entries(a),
{
    let l = seq!['#'] + c;
    lemma_conf_join(a, l);
    assert(!l.contains('\n')) by {
        if l.contains('\n') {
            let k = choose|k: int| 0 <= k < l.len() && l[k] == '\n';
            assert(k > 0);
            assert(c[k - 1] == '\n');
        }
    }
    crate::text::lemma_split_without_sep(l, '\n');
    lemma_commented_line_no_entry(l, 0);
    assert(seq![l].drop_last() =~= Seq::<Seq<char>>::empty());
    assert(seq![l].last() == l);
    assert(conf_lines(Seq::<Seq<char>>::empty()) =~= Seq::<Entry>::empty());
    assert(conf_lines(seq![l]) == conf_lines(seq![l].drop_last()));
    assert(conf_entries(l) =~= Seq::<Entry>::empty());
    assert(conf_entries(a) + conf_entries(l) =~= conf_entries(a));
}

} // verus!
