//! The feeder: the media libraries a configuration names, the blacklist that
//! filters their files, and the steps by which players pick files.
use vstd::prelude::*;
use vstd::utf8::*;
use vstd::string::StringSliceAdditionalSpecFns;
use crate::text::{char_views, chars_of, contains_bytes, find_bytes, parse_u64, parse_u64_chars, split, split_chars, string_of, string_views, push_char};
use crate::helpers::{_filtered, app_rand, bytes_of, cuts_cleanly, cuts_cleanly_check, entry_views, filtered, Entry};
use crate::sys::{lowercase, to_lowercase};

verus! {

/// Where a player is in its library: which library, which directory (the
/// directory count standing for the library's own path) and which file.
#[derive(Clone, Copy, Debug, PartialEq, Eq, Structural)]
pub struct MpvStatics {
    pub lib: usize,
    pub show_idx: usize,
    pub file_idx: usize,
}

/// The libraries, blacklist and size limit a configuration defines.
#[derive(Clone)]
pub struct Feeder {
    order: String,
    items: Vec<(String, String)>,
    blacklists: Vec<(String, String)>,
    filter_min_size: u64,
}

/// Bytes in a mebibyte.
pub open spec fn mib() -> nat {
    1024 * 1024
}

/// The configuration defines a feeder: the four selections can be cut, an
/// order and a minimum size (in MiB, a decimal `u64`) are there, and the
/// size in bytes fits in a `u64`.
pub open spec fn feeder_config_ok(cfg: Seq<Entry>) -> bool {
    &&& cuts_cleanly(cfg, "feeder.items."@)
    &&& cuts_cleanly(cfg, "feeder.filter.blacklist."@)
    &&& cuts_cleanly(cfg, "feeder.order"@)
    &&& filtered(cfg, "feeder.order"@).len() > 0
    &&& cuts_cleanly(cfg, "feeder.filter.size.minMB"@)
    &&& filtered(cfg, "feeder.filter.size.minMB"@).len() > 0
    &&& parse_u64(filtered(cfg, "feeder.filter.size.minMB"@)[0].1) is Some
    &&& parse_u64(filtered(cfg, "feeder.filter.size.minMB"@)[0].1)->0 * mib() <= u64::MAX
}

impl Feeder {
    /// The libraries: name and path.
    pub closed spec fn items(&self) -> Seq<Entry> {
        entry_views(self.items@)
    }

    /// The blacklist rules: a library name (possibly ending in a `*` prefix
    /// pattern) and `|`-separated words.
    pub closed spec fn blacklists(&self) -> Seq<Entry> {
        entry_views(self.blacklists@)
    }

    /// The configured order.
    pub closed spec fn order(&self) -> Seq<char> {
        self.order@
    }

    /// The smallest file size, in bytes, that passes the filter.
    pub closed spec fn min_size(&self) -> u64 {
        self.filter_min_size
    }

    /// Reads a feeder from a configuration, or `None` where reading it would
    /// fail (see `feeder_config_ok`).
    pub fn try_new(cfg: &Vec<(String, String)>) -> (r: Option<Self>)
        ensures
            r is Some <==> feeder_config_ok(entry_views(cfg@)),
            r matches Some(f) ==> {
                let cv = entry_views(cfg@);
                &&& f.items() == filtered(cv, "feeder.items."@)
                &&& f.blacklists() == filtered(cv, "feeder.filter.blacklist."@)
                &&& f.order() == filtered(cv, "feeder.order"@)[0].1
                &&& f.min_size() == parse_u64(filtered(cv, "feeder.filter.size.minMB"@)[0].1)->0
                    * mib()
            },
    {
        if !cuts_cleanly_check(cfg, "feeder.items.") {
            return None;
        }
        let items = _filtered(cfg, "feeder.items.");
        if !cuts_cleanly_check(cfg, "feeder.filter.blacklist.") {
            return None;
        }
        let blacklists = _filtered(cfg, "feeder.filter.blacklist.");
        if !cuts_cleanly_check(cfg, "feeder.order") {
            return None;
        }
        let orders = _filtered(cfg, "feeder.order");
        if orders.len() == 0 {
            return None;
        }
        assert(entry_views(orders@)[0] == (orders@[0].0@, orders@[0].1@));
        let order = orders[0].1.clone();
        if !cuts_cleanly_check(cfg, "feeder.filter.size.minMB") {
            return None;
        }
        let sizes = _filtered(cfg, "feeder.filter.size.minMB");
        if sizes.len() == 0 {
            return None;
        }
        assert(entry_views(sizes@)[0] == (sizes@[0].0@, sizes@[0].1@));
        let mb = match parse_u64_chars(&chars_of(sizes[0].1.as_str())) {
            Some(v) => v,
            None => {
                return None;
            },
        };
        let limit: u64 = u64::MAX / (1024 * 1024);
        if mb > limit {
            assert(mb * mib() > u64::MAX) by (nonlinear_arith)
                requires
                    mb > limit,
                    limit as int == u64::MAX as int / 1048576int,
                    mib() == 1048576nat,
            ;
            return None;
        }
        assert(mb * mib() <= u64::MAX) by (nonlinear_arith)
            requires
                mb <= limit,
                limit as int == u64::MAX as int / 1048576int,
                mib() == 1048576nat,
        ;
        let filter_min_size = mb * (1024 * 1024);
        Some(Feeder { order, items, blacklists, filter_min_size })
    }

    /// Reads a feeder from a configuration that defines one.
    pub fn new(cfg: &Vec<(String, String)>) -> (r: Self)
        requires
            feeder_config_ok(entry_views(cfg@)),
        ensures
            r.items() == filtered(entry_views(cfg@), "feeder.items."@),
            r.blacklists() == filtered(entry_views(cfg@), "feeder.filter.blacklist."@),
            r.order() == filtered(entry_views(cfg@), "feeder.order"@)[0].1,
            r.min_size() == parse_u64(
                filtered(entry_views(cfg@), "feeder.filter.size.minMB"@)[0].1,
            )->0 * mib(),
    {
        Self::try_new(cfg).unwrap()
    }

    /// The number of libraries.
    pub fn item_count(&self) -> (n: usize)
        ensures
            n == self.items().len(),
    {
        self.items.len()
    }

    /// A library's name.
    pub fn item_name(&self, i: usize) -> (s: String)
        requires
            i < self.items().len(),
        ensures
            s@ == self.items()[i as int].0,
    {
        self.items[i].0.clone()
    }

    /// A library's path.
    pub fn item_path(&self, i: usize) -> (s: String)
        requires
            i < self.items().len(),
        ensures
            s@ == self.items()[i as int].1,
    {
        self.items[i].1.clone()
    }
}

} // verus!

verus! {

/// The byte `*`.
pub open spec fn star() -> u8 {
    42
}

/// The words one blacklist rule contributes for the library called `item`.
/// A rule whose name holds a `*` at byte `w` applies when `item` is longer
/// than `w` bytes and the rule's name is `item`'s first `w` bytes followed by
/// `*`. A rule without `*` always contributes its words, and contributes them
/// a second time when its name is `item`.
pub open spec fn rule_words(item: Seq<char>, rule: Entry) -> Seq<Seq<char>> {
    let words = split(rule.1, '|');
    match bytes_of(rule.0).index_of_first(star()) {
        Some(w) => if bytes_of(item).len() > w && rule.0 == decode_utf8(bytes_of(item).take(w))
            + seq!['*'] {
            words
        } else {
            Seq::empty()
        },
        None => if rule.0 == item {
            words + words
        } else {
            words
        },
    }
}

/// The blacklisted words for the library called `item`, rule by rule.
pub open spec fn blacklist_words(item: Seq<char>, rules: Seq<Entry>) -> Seq<Seq<char>>
    decreases rules.len(),
{
    if rules.len() == 0 {
        Seq::empty()
    } else {
        blacklist_words(item, rules.drop_last()) + rule_words(item, rules.last())
    }
}

/// Every `*` rule that gets compared with `item` cuts `item` on a character
/// boundary (the slicing panics otherwise).
pub open spec fn rules_cut_cleanly(item: Seq<char>, rules: Seq<Entry>) -> bool {
    forall|r: int|
        0 <= r < rules.len() ==> match bytes_of(#[trigger] rules[r].0).index_of_first(star()) {
            Some(w) => bytes_of(item).len() > w ==> is_char_boundary(bytes_of(item), w),
            None => true,
        }
}

/// A file passes the filter: it is at least `min` bytes and its lowercased
/// path holds none of the words.
pub open spec fn passes(words: Seq<Seq<char>>, min: u64, size: u64, lowered: Seq<char>) -> bool {
    size >= min && forall|k: int|
        0 <= k < words.len() ==> !contains_bytes(bytes_of(lowered), bytes_of(#[trigger] words[k]))
}

/// The paths of the files that pass, in order.
pub open spec fn passing(
    entries: Seq<(Seq<char>, u64)>,
    words: Seq<Seq<char>>,
    min: u64,
) -> Seq<Seq<char>>
    decreases entries.len(),
{
    if entries.len() == 0 {
        Seq::empty()
    } else {
        let r = passing(entries.drop_last(), words, min);
        let e = entries.last();
        if passes(words, min, e.1, lowercase(e.0)) {
            r.push(e.0)
        } else {
            r
        }
    }
}

/// The text and size of listed files.
pub open spec fn sized_views(v: Seq<(String, u64)>) -> Seq<(Seq<char>, u64)> {
    v.map_values(|p: (String, u64)| (p.0@, p.1))
}

/// The index of the first byte `b` in `hay`.
fn first_byte(hay: &[u8], b: u8) -> (r: Option<usize>)
    ensures
        r matches Some(i) ==> hay@.index_of_first(b) == Some(i as int),
        r is None ==> hay@.index_of_first(b) is None,
{
    let mut i: usize = 0;
    while i < hay.len()
        invariant
            i <= hay@.len(),
            forall|j: int| 0 <= j < i ==> hay@[j] != b,
        decreases hay.len() - i,
    {
        if hay[i] == b {
            proof {
                hay@.index_of_first_ensures(b);
            }
            return Some(i);
        }
        i += 1;
    }
    proof {
        hay@.index_of_first_ensures(b);
    }
    None
}

/// The words one rule contributes (see `rule_words`), appended to `out`.
fn add_rule_words(item: &str, rule: &(String, String), out: &mut Vec<String>)
    requires
        rules_cut_cleanly(item@, seq![(rule.0@, rule.1@)]),
    ensures
        string_views(final(out)@) == string_views(old(out)@) + rule_words(item@, (rule.0@, rule.1@)),
{
    let ghost rv = (rule.0@, rule.1@);
    assert(seq![rv][0] == rv);
    let key = rule.0.as_str();
    let words = split_chars(&chars_of(rule.1.as_str()), '|');
    let ghost ws = split(rv.1, '|');
    assert(char_views(words@) == ws);
    let ib = item.as_bytes();
    let kb = key.as_bytes();
    assert(kb@ == bytes_of(rv.0));
    let times: usize = match first_byte(kb, 42) {
        Some(w) => {
            let il = ib.len();
            if il > w {
                assert(seq![rv][0].0 == rv.0);
                assert(is_char_boundary(bytes_of(item@), w as int));
                let (head, _) = item.split_at(w);
                assert(head.spec_bytes() =~= bytes_of(item@).take(w as int));
                proof {
                    encode_utf8_decode_utf8(head@);
                }
                let mut mat = head.to_owned();
                push_char(&mut mat, '*');
                assert(mat@ == decode_utf8(bytes_of(item@).take(w as int)) + seq!['*']);
                if rule.0 == mat {
                    assert(rule_words(item@, rv) == ws);
                    1
                } else {
                    assert(rule_words(item@, rv) == Seq::<Seq<char>>::empty());
                    0
                }
            } else {
                assert(rule_words(item@, rv) == Seq::<Seq<char>>::empty());
                0
            }
        },
        None => {
            let it = chars_of(item);
            let name = string_of(&it);
            if rule.0 == name {
                assert(rule_words(item@, rv) == ws + ws);
                2
            } else {
                assert(rule_words(item@, rv) == ws);
                1
            }
        },
    };
    assert(rule_words(item@, rv) == (if times == 0 {
        Seq::<Seq<char>>::empty()
    } else if times == 1 {
        ws
    } else {
        ws + ws
    }));
    let ghost start = string_views(out@);
    let mut round: usize = 0;
    while round < times
        invariant
            round <= times <= 2,
            char_views(words@) == ws,
            string_views(out@) == start + (if round == 0 {
                Seq::<Seq<char>>::empty()
            } else if round == 1 {
                ws
            } else {
                ws + ws
            }),
        decreases times - round,
    {
        let ghost base = string_views(out@);
        let mut k: usize = 0;
        while k < words.len()
            invariant
                k <= words@.len(),
                char_views(words@) == ws,
                string_views(out@) == base + ws.take(k as int),
            decreases words.len() - k,
        {
            let ghost before = string_views(out@);
            out.push(string_of(&words[k]));
            assert(string_views(out@) =~= before.push(ws[k as int]));
            assert(ws.take(k + 1) =~= ws.take(k as int).push(ws[k as int]));
            k += 1;
        }
        assert(ws.take(ws.len() as int) =~= ws);
        assert(string_views(out@) =~= start + (if round + 1 == 1 {
            ws
        } else {
            ws + ws
        }));
        round += 1;
    }
}

impl Feeder {
    /// The blacklisted words for library `itemi` (see `blacklist_words`).
    pub fn blacklist_for(&self, itemi: usize) -> (r: Vec<String>)
        requires
            itemi < self.items().len(),
            rules_cut_cleanly(self.items()[itemi as int].0, self.blacklists()),
        ensures
            string_views(r@) == blacklist_words(self.items()[itemi as int].0, self.blacklists()),
    {
        let item = self.items[itemi].0.as_str();
        assert(self.items()[itemi as int].0 == item@);
        let ghost rules = self.blacklists();
        let mut out: Vec<String> = Vec::new();
        let mut b: usize = 0;
        assert(rules.take(0) =~= Seq::<Entry>::empty());
        while b < self.blacklists.len()
            invariant
                b <= self.blacklists@.len(),
                rules == self.blacklists(),
                rules == entry_views(self.blacklists@),
                item@ == self.items()[itemi as int].0,
                rules_cut_cleanly(item@, rules),
                string_views(out@) == blacklist_words(item@, rules.take(b as int)),
            decreases self.blacklists.len() - b,
        {
            let rule = &self.blacklists[b];
            assert(rules[b as int] == (rule.0@, rule.1@));
            assert(rules_cut_cleanly(item@, seq![(rule.0@, rule.1@)])) by {
                assert forall|r: int| 0 <= r < 1 implies match bytes_of(
                    #[trigger] seq![(rule.0@, rule.1@)][r].0,
                ).index_of_first(star()) {
                    Some(w) => bytes_of(item@).len() > w ==> is_char_boundary(bytes_of(item@), w),
                    None => true,
                } by {
                    assert(seq![(rule.0@, rule.1@)][r] == rules[b as int]);
                }
            }
            add_rule_words(item, rule, &mut out);
            assert(rules.take(b + 1).drop_last() =~= rules.take(b as int));
            b += 1;
        }
        assert(rules.take(self.blacklists@.len() as int) =~= rules);
        out
    }

    /// Whether a file of `size` bytes whose lowercased path is `lowered`
    /// passes the filter with `words`.
    pub fn passes_filter(&self, words: &Vec<String>, size: u64, lowered: &str) -> (b: bool)
        ensures
            b == passes(string_views(words@), self.min_size(), size, lowered@),
    {
        if size < self.filter_min_size {
            return false;
        }
        let lb = lowered.as_bytes();
        let mut k: usize = 0;
        while k < words.len()
            invariant
                k <= words@.len(),
                lb@ == bytes_of(lowered@),
                forall|j: int|
                    0 <= j < k ==> !contains_bytes(
                        bytes_of(lowered@),
                        bytes_of(#[trigger] string_views(words@)[j]),
                    ),
            decreases words.len() - k,
        {
            let w = words[k].as_str();
            assert(string_views(words@)[k as int] == w@);
            if find_bytes(lb, w.as_bytes()).is_some() {
                return false;
            }
            k += 1;
        }
        true
    }

    /// The files of library `itemi` that pass the filter, given each file's
    /// path and size: at least the minimum size, and no blacklisted word in
    /// the lowercased path.
    pub fn filter(&self, itemi: usize, entries: &Vec<(String, u64)>) -> (r: Vec<String>)
        requires
            itemi < self.items().len(),
            rules_cut_cleanly(self.items()[itemi as int].0, self.blacklists()),
        ensures
            string_views(r@) == passing(
                sized_views(entries@),
                blacklist_words(self.items()[itemi as int].0, self.blacklists()),
                self.min_size(),
            ),
    {
        let words = self.blacklist_for(itemi);
        let ghost ws = string_views(words@);
        let ghost ev = sized_views(entries@);
        let mut out: Vec<String> = Vec::new();
        let mut i: usize = 0;
        assert(ev.take(0) =~= Seq::<(Seq<char>, u64)>::empty());
        while i < entries.len()
            invariant
                i <= entries@.len(),
                ws == string_views(words@),
                ws == blacklist_words(self.items()[itemi as int].0, self.blacklists()),
                ev == sized_views(entries@),
                string_views(out@) == passing(ev.take(i as int), ws, self.min_size()),
            decreases entries.len() - i,
        {
            let path = entries[i].0.as_str();
            let lowered = to_lowercase(path);
            assert(ev[i as int] == (entries@[i as int].0@, entries@[i as int].1));
            assert(ev.take(i + 1).drop_last() =~= ev.take(i as int));
            if self.passes_filter(&words, entries[i].1, lowered.as_str()) {
                let ghost before = string_views(out@);
                out.push(entries[i].0.clone());
                assert(string_views(out@) =~= before.push(ev[i as int].0));
            }
            i += 1;
        }
        assert(ev.take(entries@.len() as int) =~= ev);
        out
    }
}

} // verus!

verus! {

/// What `other_dir` decides for the drawn index `d`.
pub open spec fn other_dir_outcome(show_idx: usize, ndirs: usize, d: usize) -> Option<usize> {
    if ndirs > 0 && d == show_idx {
        None
    } else {
        Some(d)
    }
}

/// The position a player takes after picking file `f` of directory `idx_d`.
pub open spec fn pick_state(pls: MpvStatics, idx_d: usize, f: usize) -> MpvStatics {
    MpvStatics { lib: pls.lib, show_idx: idx_d, file_idx: f }
}

/// What copying the position `other` over the passing files gives: the new
/// position and the file, or nothing when no file passed.
pub open spec fn tagged_outcome(other: MpvStatics, passed: Seq<Seq<char>>) -> Option<(MpvStatics, Seq<char>)> {
    if passed.len() == 0 {
        None
    } else {
        Some((other, passed[other.file_idx as int]))
    }
}

/// Copying a player's position right after its pick, over the same passing
/// files, gives the same file, and the copying player takes that position.
pub proof fn lemma_tagged_after_pick(pls: MpvStatics, idx_d: usize, f: usize, passed: Seq<Seq<char>>)
    requires
        f < passed.len(),
    ensures
        tagged_outcome(pick_state(pls, idx_d, f), passed) == Some(
            (pick_state(pls, idx_d, f), passed[f as int]),
        ),
{
}

impl Feeder {
    /// Assigns library `itemi` to a player.
    pub fn register(&self, pls: &mut MpvStatics, itemi: usize)
        ensures
            *final(pls) == (MpvStatics { lib: itemi, ..*old(pls) }),
    {
        pls.lib = itemi;
    }

    /// The directory a pick lists: `dirs[idx_d]`, or the player's library
    /// path when `idx_d` is the number of directories.
    pub fn listing_dir(&self, pls: &MpvStatics, dirs: &Vec<String>, idx_d: usize) -> (r: String)
        requires
            pls.lib < self.items().len(),
            idx_d <= dirs@.len(),
        ensures
            r@ == (if idx_d == dirs@.len() {
                self.items()[pls.lib as int].1
            } else {
                dirs@[idx_d as int]@
            }),
    {
        if idx_d == dirs.len() {
            self.item_path(pls.lib)
        } else {
            dirs[idx_d].clone()
        }
    }

    /// A random directory index for a fresh pick: one of the `ndirs`
    /// directories or, as `ndirs`, the library path itself.
    pub fn draw_dir(ndirs: usize) -> (r: usize)
        requires
            ndirs < usize::MAX,
        ensures
            r <= ndirs,
    {
        app_rand(ndirs + 1)
    }

    /// Judges a drawn directory index `d` for a pick that must change
    /// directory: `None` when it repeats the player's current directory while
    /// there are directories to choose from, `d` itself otherwise.
    pub fn other_dir(pls: &MpvStatics, ndirs: usize, d: usize) -> (r: Option<usize>)
        requires
            d <= ndirs,
        ensures
            r == other_dir_outcome(pls.show_idx, ndirs, d),
    {
        if ndirs > 0 && d == pls.show_idx {
            None
        } else {
            Some(d)
        }
    }

    /// One draw of a directory index for a pick that must change directory:
    /// a uniform draw from `0..=ndirs` judged by `other_dir` (`None` asks the
    /// caller to draw again). With no directories the draw is always the
    /// library path (`Some(0)`); when the current directory is out of the
    /// drawable range no draw repeats it.
    pub fn draw_other_dir(pls: &MpvStatics, ndirs: usize) -> (r: Option<usize>)
        requires
            ndirs < usize::MAX,
        ensures
            exists|d: usize| d <= ndirs && r == other_dir_outcome(pls.show_idx, ndirs, d),
            r matches Some(d) ==> d <= ndirs && (ndirs > 0 ==> d != pls.show_idx),
            ndirs == 0 ==> r == Some(0usize),
            pls.show_idx > ndirs ==> r is Some,
            r is None ==> 0 < ndirs && pls.show_idx <= ndirs,
    {
        let d = app_rand(ndirs + 1);
        Self::other_dir(pls, ndirs, d)
    }

    /// Completes a pick from directory `idx_d` among the files that passed
    /// the filter: `None`, with the player unchanged, when none did (the
    /// caller picks again); else a random one, which the player now shows.
    pub fn settle_pick(pls: &mut MpvStatics, idx_d: usize, passed: &Vec<String>) -> (r: Option<String>)
        ensures
            passed@.len() == 0 <==> r is None,
            r is None ==> *final(pls) == *old(pls),
            r matches Some(p) ==> {
                &&& final(pls).lib == old(pls).lib
                &&& final(pls).show_idx == idx_d
                &&& final(pls).file_idx < passed@.len()
                &&& p@ == passed@[final(pls).file_idx as int]@
                &&& *final(pls) == pick_state(*old(pls), idx_d, final(pls).file_idx)
            },
    {
        if passed.len() == 0 {
            return None;
        }
        let f = app_rand(passed.len());
        pls.show_idx = idx_d;
        pls.file_idx = f;
        Some(passed[f].clone())
    }

    /// Completes a pick of another file from the same directory: `None` when
    /// no file passed (the caller lists again); else a random one. The
    /// player's position is not changed.
    pub fn settle_more(passed: &Vec<String>) -> (r: Option<String>)
        ensures
            passed@.len() == 0 <==> r is None,
            r matches Some(p) ==> exists|f: int| 0 <= f < passed@.len() && p@ == passed@[f]@,
    {
        if passed.len() == 0 {
            return None;
        }
        let f = app_rand(passed.len());
        let p = passed[f].clone();
        assert(p@ == passed@[f as int]@);
        Some(p)
    }

    /// Completes a pick that copies another player's position: `None` when
    /// no file passed (the caller lists again); else the other player's file,
    /// and this player takes the other's position.
    pub fn settle_tagged(pls: &mut MpvStatics, other: &MpvStatics, passed: &Vec<String>) -> (r: Option<String>)
        requires
            passed@.len() > 0 ==> other.file_idx < passed@.len(),
        ensures
            passed@.len() == 0 <==> r is None,
            r is None ==> *final(pls) == *old(pls),
            r matches Some(p) ==> *final(pls) == *other && p@ == passed@[other.file_idx as int]@,
            r is None <==> tagged_outcome(*other, string_views(passed@)) is None,
            r matches Some(p) ==> tagged_outcome(*other, string_views(passed@)) == Some(
                (*final(pls), p@),
            ),
    {
        if passed.len() == 0 {
            return None;
        }
        pls.lib = other.lib;
        pls.show_idx = other.show_idx;
        pls.file_idx = other.file_idx;
        Some(passed[other.file_idx].clone())
    }
}

} // verus!

verus! {

/// A library whose name begins with `xx` is shown on the quiet wall.
pub open spec fn quiet_name(name: Seq<char>) -> bool {
    bytes_of(name).len() >= 2 && bytes_of(name).take(2) == seq![120u8, 120u8]
}

/// The first two bytes of the name can be sliced off (the slicing panics
/// otherwise).
pub open spec fn name_has_prefix2(name: Seq<char>) -> bool {
    bytes_of(name).len() >= 2 && is_char_boundary(bytes_of(name), 2)
}

impl Feeder {
    /// Whether switching to library `itemi` puts the wall in quiet mode: its
    /// name begins with `xx`.
    pub fn is_quiet_lib(&self, itemi: usize) -> (b: bool)
        requires
            itemi < self.items().len(),
            name_has_prefix2(self.items()[itemi as int].0),
        ensures
            b == quiet_name(self.items()[itemi as int].0),
    {
        let name = self.items[itemi].0.as_str();
        assert(self.items()[itemi as int].0 == name@);
        let nb = name.as_bytes();
        let b = nb[0] == 120u8 && nb[1] == 120u8;
        assert(b == (nb@.take(2) =~= seq![120u8, 120u8]));
        b
    }
}

} // verus!

verus! {

/// `path` is one of the listed files and passes the filter.
pub open spec fn listed_and_passing(
    entries: Seq<(Seq<char>, u64)>,
    words: Seq<Seq<char>>,
    min: u64,
    path: Seq<char>,
) -> bool {
    exists|i: int|
        0 <= i < entries.len() && entries[i].0 == path && passes(
            words,
            min,
            entries[i].1,
            lowercase(entries[i].0),
        )
}

/// Every file that passes the filter is one of the listed files, at least
/// the minimum size, and free of blacklisted words; no more files pass than
/// were listed.
pub proof fn lemma_passing_sound(entries: Seq<(Seq<char>, u64)>, words: Seq<Seq<char>>, min: u64)
    ensures
        passing(entries, words, min).len() <= entries.len(),
        forall|k: int|
            0 <= k < passing(entries, words, min).len() ==> listed_and_passing(
                entries,
                words,
                min,
                #[trigger] passing(entries, words, min)[k],
            ),
    decreases entries.len(),
{
    if entries.len() > 0 {
        let init = entries.drop_last();
        lemma_passing_sound(init, words, min);
        let r = passing(entries, words, min);
        let p = passing(init, words, min);
        let e = entries.last();
        assert forall|k: int| 0 <= k < r.len() implies listed_and_passing(
            entries,
            words,
            min,
            #[trigger] r[k],
        ) by {
            if k < p.len() {
                assert(r[k] == p[k]);
                assert(listed_and_passing(init, words, min, p[k]));
                let i = choose|i: int|
                    0 <= i < init.len() && init[i].0 == p[k] && passes(
                        words,
                        min,
                        init[i].1,
                        lowercase(init[i].0),
                    );
                assert(entries[i] == init[i]);
            } else {
                assert(passes(words, min, e.1, lowercase(e.0)));
                assert(r == p.push(e.0));
                assert(r[k] == e.0);
                assert(entries[entries.len() - 1] == e);
            }
        }
    }
}

/// Blacklisting by an empty word (such as the one an empty `||` piece
/// gives) lets no file through.
pub proof fn lemma_empty_word_blocks_all(entries: Seq<(Seq<char>, u64)>, words: Seq<Seq<char>>, min: u64, w: int)
    requires
        0 <= w < words.len(),
        words[w] == Seq::<char>::empty(),
    ensures
        passing(entries, words, min) == Seq::<Seq<char>>::empty(),
    decreases entries.len(),
{
    if entries.len() > 0 {
        lemma_empty_word_blocks_all(entries.drop_last(), words, min, w);
        let l = lowercase(entries.last().0);
        assert(bytes_of(words[w]) == Seq::<u8>::empty());
        assert(bytes_of(l).subrange(0, 0) =~= Seq::<u8>::empty());
        assert(crate::text::occurs_at(bytes_of(l), bytes_of(words[w]), 0));
    }
}

} // verus!

verus! {

impl Feeder {
    /// Whether `filter` and `blacklist_for` can run for library `itemi`: it
    /// exists and every `*` rule cuts its name on a character boundary.
    pub fn can_filter(&self, itemi: usize) -> (b: bool)
        ensures
            b == (itemi < self.items().len() && rules_cut_cleanly(
                self.items()[itemi as int].0,
                self.blacklists(),
            )),
    {
        if itemi >= self.items.len() {
            return false;
        }
        let item = self.items[itemi].0.as_str();
        assert(self.items()[itemi as int].0 == item@);
        let ib = item.as_bytes();
        let il = ib.len();
        let ghost rules = self.blacklists();
        let mut b: usize = 0;
        while b < self.blacklists.len()
            invariant
                b <= self.blacklists@.len(),
                rules == entry_views(self.blacklists@),
                rules == self.blacklists(),
                itemi < self.items().len(),
                item@ == self.items()[itemi as int].0,
                il == bytes_of(item@).len(),
                forall|r: int|
                    0 <= r < b ==> match bytes_of(#[trigger] rules[r].0).index_of_first(star()) {
                        Some(w) => bytes_of(item@).len() > w ==> is_char_boundary(
                            bytes_of(item@),
                            w,
                        ),
                        None => true,
                    },
            decreases self.blacklists.len() - b,
        {
            let key = self.blacklists[b].0.as_str();
            assert(rules[b as int].0 == key@);
            match first_byte(key.as_bytes(), 42) {
                Some(w) => {
                    if il > w && !item.is_char_boundary(w) {
                        assert(bytes_of(rules[b as int].0).index_of_first(star()) == Some(w as int));
                        assert(!rules_cut_cleanly(item@, rules));
                        return false;
                    }
                },
                None => {},
            }
            b += 1;
        }
        true
    }
}

} // verus!

verus! {

/// A blacklist rule without `*` applies to every library, not just the one
/// it names: its words are always among those the rule contributes.
pub proof fn lemma_plain_rule_applies_everywhere(item: Seq<char>, rule: Entry)
    requires
        bytes_of(rule.0).index_of_first(star()) is None,
    ensures
        rule_words(item, rule).take(split(rule.1, '|').len() as int) == split(rule.1, '|'),
{
    let ws = split(rule.1, '|');
    if rule.0 == item {
        assert((ws + ws).take(ws.len() as int) =~= ws);
    } else {
        assert(ws.take(ws.len() as int) =~= ws);
    }
}

} // verus!

verus! {

/// The listed files (path and size) that pass the filter, in order.
pub open spec fn passing_entries(
    entries: Seq<(Seq<char>, u64)>,
    words: Seq<Seq<char>>,
    min: u64,
) -> Seq<(Seq<char>, u64)>
    decreases entries.len(),
{
    if entries.len() == 0 {
        Seq::empty()
    } else {
        let r = passing_entries(entries.drop_last(), words, min);
        let e = entries.last();
        if passes(words, min, e.1, lowercase(e.0)) {
            r.push(e)
        } else {
            r
        }
    }
}

/// `a` is `b` with some elements left out, the rest in their order.
pub open spec fn is_subsequence<A>(a: Seq<A>, b: Seq<A>) -> bool
    decreases b.len(),
{
    if a.len() == 0 {
        true
    } else if b.len() == 0 {
        false
    } else {
        is_subsequence(a, b.drop_last()) || (a.last() == b.last() && is_subsequence(
            a.drop_last(),
            b.drop_last(),
        ))
    }
}

/// Filtering is idempotent and keeps order: the passing paths are the paths
/// of the passing entries, those entries are a subsequence of the listed
/// ones, and filtering them again (the files unchanged) lets all of them
/// through.
pub proof fn lemma_filter_idempotent(entries: Seq<(Seq<char>, u64)>, words: Seq<Seq<char>>, min: u64)
    ensures
        passing(entries, words, min) == passing_entries(entries, words, min).map_values(
            |e: (Seq<char>, u64)| e.0,
        ),
        is_subsequence(passing_entries(entries, words, min), entries),
        passing_entries(passing_entries(entries, words, min), words, min) == passing_entries(
            entries,
            words,
            min,
        ),
        passing(passing_entries(entries, words, min), words, min) == passing(entries, words, min),
    decreases entries.len(),
{
    if entries.len() > 0 {
        let init = entries.drop_last();
        let e = entries.last();
        lemma_filter_idempotent(init, words, min);
        let p = passing_entries(init, words, min);
        lemma_passing_entries_all_pass(init, words, min);
        lemma_passing_entries_all_pass(entries, words, min);
        let q = passing_entries(entries, words, min);
        lemma_all_pass_fixed(q, words, min);
        lemma_all_pass_fixed(p, words, min);
        if passes(words, min, e.1, lowercase(e.0)) {
            assert(q == p.push(e));
            assert(q.map_values(|x: (Seq<char>, u64)| x.0) =~= p.map_values(
                |x: (Seq<char>, u64)| x.0,
            ).push(e.0));
            assert(q.drop_last() =~= p);
            assert(is_subsequence(q, entries));
        } else {
            lemma_subsequence_extend(p, init, e);
            assert(init.push(e) =~= entries);
        }
        lemma_passing_of_passing(q, words, min);
    }
}

proof fn lemma_subsequence_extend<A>(a: Seq<A>, b: Seq<A>, x: A)
    requires
        is_subsequence(a, b),
    ensures
        is_subsequence(a, b.push(x)),
{
    assert(b.push(x).drop_last() =~= b);
}

/// Every passing entry passes.
proof fn lemma_passing_entries_all_pass(entries: Seq<(Seq<char>, u64)>, words: Seq<Seq<char>>, min: u64)
    ensures
        forall|k: int|
            0 <= k < passing_entries(entries, words, min).len() ==> passes(
                words,
                min,
                #[trigger] passing_entries(entries, words, min)[k].1,
                lowercase(passing_entries(entries, words, min)[k].0),
            ),
    decreases entries.len(),
{
    if entries.len() > 0 {
        lemma_passing_entries_all_pass(entries.drop_last(), words, min);
        let p = passing_entries(entries.drop_last(), words, min);
        let q = passing_entries(entries, words, min);
        assert forall|k: int| 0 <= k < q.len() implies passes(
            words,
            min,
            #[trigger] q[k].1,
            lowercase(q[k].0),
        ) by {
            if k < p.len() {
                assert(q[k] == p[k]);
            }
        }
    }
}

/// Entries that all pass are kept whole.
proof fn lemma_all_pass_fixed(entries: Seq<(Seq<char>, u64)>, words: Seq<Seq<char>>, min: u64)
    requires
        forall|k: int|
            0 <= k < entries.len() ==> passes(
                words,
                min,
                #[trigger] entries[k].1,
                lowercase(entries[k].0),
            ),
    ensures
        passing_entries(entries, words, min) == entries,
    decreases entries.len(),
{
    if entries.len() > 0 {
        let init = entries.drop_last();
        assert forall|k: int| 0 <= k < init.len() implies passes(
            words,
            min,
            #[trigger] init[k].1,
            lowercase(init[k].0),
        ) by {
            assert(init[k] == entries[k]);
        }
        lemma_all_pass_fixed(init, words, min);
        assert(entries.last() == entries[entries.len() - 1]);
        assert(init.push(entries.last()) =~= entries);
    }
}

/// The passing paths of entries are the paths of their passing entries.
proof fn lemma_passing_of_passing(entries: Seq<(Seq<char>, u64)>, words: Seq<Seq<char>>, min: u64)
    ensures
        passing(entries, words, min) == passing_entries(entries, words, min).map_values(
            |e: (Seq<char>, u64)| e.0,
        ),
    decreases entries.len(),
{
    if entries.len() > 0 {
        lemma_passing_of_passing(entries.drop_last(), words, min);
        let p = passing_entries(entries.drop_last(), words, min);
        let e = entries.last();
        if passes(words, min, e.1, lowercase(e.0)) {
            assert(p.push(e).map_values(|x: (Seq<char>, u64)| x.0) =~= p.map_values(
                |x: (Seq<char>, u64)| x.0,
            ).push(e.0));
        }
    } else {
        assert(passing_entries(entries, words, min).map_values(|x: (Seq<char>, u64)| x.0)
            =~= Seq::<Seq<char>>::empty());
    }
}

} // verus!

verus! {

proof fn lemma_scalar_first_byte_ascii(c: char, b: u8)
    requires
        encode_scalar(c as u32)[0] == b,
        b < 0x80,
    ensures
        c as u32 == b as u32,
        encode_scalar(c as u32) == seq![b],
{
    char_is_scalar(c);
    let u = c as u32;
    if has_width_1_encoding(u) {
        assert(((u & 0x7F) as u8) as u32 == u) by (bit_vector)
            requires
                u <= 0x7F,
        ;
    } else if has_width_2_encoding(u) {
        assert((0xC0u8 | ((u >> 6) & 0x1F) as u8) >= 0xC0u8) by (bit_vector);
    } else if has_width_3_encoding(u) {
        assert((0xE0u8 | ((u >> 12) & 0x0F) as u8) >= 0xC0u8) by (bit_vector);
    } else {
        assert((0xF0u8 | ((u >> 18) & 0x7) as u8) >= 0xC0u8) by (bit_vector);
    }
}

proof fn lemma_encode_x()
    ensures
        encode_scalar('x' as u32) == seq![120u8],
{
    assert(('x' as u32) == 120u32);
    assert(((120u32 & 0x7F) as u8) == 120u8) by (bit_vector);
}

proof fn lemma_encode_nonempty_head(s: Seq<char>)
    requires
        s.len() > 0,
    ensures
        bytes_of(s) == encode_scalar(s[0] as u32) + bytes_of(s.drop_first()),
        encode_scalar(s[0] as u32).len() >= 1,
{
}

/// A library is quiet exactly when its name's first two characters are both
/// `x`: `xx…` names switch the wall to quiet mode, and a name whose second
/// character is anything else (`xmas`, `x`) never does.
pub proof fn lemma_quiet_name_chars(name: Seq<char>)
    ensures
        quiet_name(name) <==> (name.len() >= 2 && name[0] == 'x' && name[1] == 'x'),
{
    if name.len() >= 2 && name[0] == 'x' && name[1] == 'x' {
        lemma_encode_nonempty_head(name);
        lemma_encode_nonempty_head(name.drop_first());
        lemma_encode_x();
        assert(name.drop_first()[0] == 'x');
        let rest = bytes_of(name.drop_first().drop_first());
        assert(bytes_of(name) =~= seq![120u8, 120u8] + rest);
        assert(bytes_of(name).take(2) =~= seq![120u8, 120u8]);
    }
    if quiet_name(name) {
        let bs = bytes_of(name);
        assert(bs.take(2)[0] == 120u8 && bs.take(2)[1] == 120u8);
        if name.len() == 0 {
            assert(bs.len() == 0);
        }
        lemma_encode_nonempty_head(name);
        assert(encode_scalar(name[0] as u32)[0] == bs[0]);
        lemma_scalar_first_byte_ascii(name[0], 120u8);
        char_u32_cast(name[0], 120u32);
        char_u32_cast('x', 120u32);
        let t = name.drop_first();
        let tb = bytes_of(t);
        assert(bs =~= seq![120u8] + tb);
        if t.len() == 0 {
            assert(tb.len() == 0);
        }
        lemma_encode_nonempty_head(t);
        assert(encode_scalar(t[0] as u32)[0] == tb[0]);
        assert(tb[0] == bs[1]);
        lemma_scalar_first_byte_ascii(t[0], 120u8);
        char_u32_cast(t[0], 120u32);
        assert(name[1] == t[0]);
    }
}

} // verus!

verus! {

/// Whether a blacklist rule applies to the library called `item`: a rule
/// whose name holds a `*` at byte `w` applies when `item` is longer than `w`
/// bytes and the rule's name is `item`'s first `w` bytes then `*`; a rule
/// without `*` applies to every library.
pub open spec fn rule_applies(item: Seq<char>, rule: Entry) -> bool {
    match bytes_of(rule.0).index_of_first(star()) {
        Some(w) => bytes_of(item).len() > w && rule.0 == decode_utf8(bytes_of(item).take(w))
            + seq!['*'],
        None => true,
    }
}

proof fn lemma_rule_words_cover(item: Seq<char>, rule: Entry, k: int)
    requires
        rule_applies(item, rule),
        0 <= k < split(rule.1, '|').len(),
    ensures
        rule_words(item, rule).contains(split(rule.1, '|')[k]),
{
    let ws = split(rule.1, '|');
    match bytes_of(rule.0).index_of_first(star()) {
        Some(w) => {
            assert(rule_words(item, rule)[k] == ws[k]);
        },
        None => {
            if rule.0 == item {
                assert((ws + ws)[k] == ws[k]);
            } else {
                assert(rule_words(item, rule)[k] == ws[k]);
            }
        },
    }
}

proof fn lemma_rule_words_source(item: Seq<char>, rule: Entry, j: int)
    requires
        0 <= j < rule_words(item, rule).len(),
    ensures
        rule_applies(item, rule),
        split(rule.1, '|').contains(rule_words(item, rule)[j]),
{
    let ws = split(rule.1, '|');
    match bytes_of(rule.0).index_of_first(star()) {
        Some(w) => {
            assert(rule_words(item, rule)[j] == ws[j]);
        },
        None => {
            if rule.0 == item {
                if j < ws.len() {
                    assert((ws + ws)[j] == ws[j]);
                } else {
                    assert((ws + ws)[j] == ws[j - ws.len()]);
                }
            } else {
                assert(rule_words(item, rule)[j] == ws[j]);
            }
        },
    }
}

/// The blacklisted words of a library are exactly the words of the rules
/// that apply to it: every `|`-separated word of every applying rule is
/// among them, and each of them is a word of some applying rule.
pub proof fn lemma_blacklist_words_are_applying_rules(item: Seq<char>, rules: Seq<Entry>)
    ensures
        forall|r: int, k: int|
            0 <= r < rules.len() && rule_applies(item, rules[r]) && 0 <= k < split(
                rules[r].1,
                '|',
            ).len() ==> blacklist_words(item, rules).contains(#[trigger] split(rules[r].1, '|')[k]),
        forall|j: int|
            0 <= j < blacklist_words(item, rules).len() ==> exists|r: int|
                0 <= r < rules.len() && rule_applies(item, rules[r]) && split(
                    rules[r].1,
                    '|',
                ).contains(#[trigger] blacklist_words(item, rules)[j]),
    decreases rules.len(),
{
    if rules.len() > 0 {
        let init = rules.drop_last();
        let last = rules.last();
        lemma_blacklist_words_are_applying_rules(item, init);
        let p = blacklist_words(item, init);
        let q = rule_words(item, last);
        let b = blacklist_words(item, rules);
        assert(b == p + q);
        assert forall|r: int, k: int|
            0 <= r < rules.len() && rule_applies(item, rules[r]) && 0 <= k < split(
                rules[r].1,
                '|',
            ).len() implies b.contains(#[trigger] split(rules[r].1, '|')[k]) by {
            if r < init.len() {
                assert(rules[r] == init[r]);
                assert(p.contains(split(init[r].1, '|')[k]));
                let x = choose|x: int| 0 <= x < p.len() && p[x] == split(init[r].1, '|')[k];
                assert(b[x] == p[x]);
            } else {
                assert(rules[r] == last);
                lemma_rule_words_cover(item, last, k);
                let x = choose|x: int| 0 <= x < q.len() && q[x] == split(last.1, '|')[k];
                assert(b[p.len() + x] == q[x]);
            }
        }
        assert forall|j: int| 0 <= j < b.len() implies exists|r: int|
            0 <= r < rules.len() && rule_applies(item, rules[r]) && split(
                rules[r].1,
                '|',
            ).contains(#[trigger] b[j]) by {
            if j < p.len() {
                assert(b[j] == p[j]);
                let r = choose|r: int|
                    0 <= r < init.len() && rule_applies(item, init[r]) && split(
                        init[r].1,
                        '|',
                    ).contains(#[trigger] p[j]);
                assert(rules[r] == init[r]);
            } else {
                assert(b[j] == q[j - p.len()]);
                lemma_rule_words_source(item, last, j - p.len());
                assert(rules[rules.len() - 1] == last);
            }
        }
    }
}

/// A file whose lowercased path holds any word of a rule that applies to the
/// library never passes that library's filter.
pub proof fn lemma_applying_rule_blocks(
    item: Seq<char>,
    rules: Seq<Entry>,
    r: int,
    k: int,
    min: u64,
    size: u64,
    lowered: Seq<char>,
)
    requires
        0 <= r < rules.len(),
        rule_applies(item, rules[r]),
        0 <= k < split(rules[r].1, '|').len(),
        contains_bytes(bytes_of(lowered), bytes_of(split(rules[r].1, '|')[k])),
    ensures
        !passes(blacklist_words(item, rules), min, size, lowered),
{
    lemma_blacklist_words_are_applying_rules(item, rules);
    let ws = blacklist_words(item, rules);
    let w = split(rules[r].1, '|')[k];
    assert(ws.contains(w));
    let x = choose|x: int| 0 <= x < ws.len() && ws[x] == w;
    assert(contains_bytes(bytes_of(lowered), bytes_of(ws[x])));
}

} // verus!
