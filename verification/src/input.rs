//! Pointer input: mouse-button events and the combos (timed sequences of
//! events) that a configuration defines.
use vstd::prelude::*;
use std::time::SystemTime;
use crate::text::{char_views, chars_of, same_chars, parse_i64, parse_i64_chars, split, split_chars, string_of};
use crate::helpers::{_filtered, _single, cuts_cleanly, entry_views, filtered, Entry};
use crate::sys::{duration_millis, duration_since, system_now};

verus! {

/// A pointer event: none, or one of the three mouse buttons.
#[derive(Clone, Copy, Debug, PartialEq, Eq, Structural)]
pub enum ManagedEvent {
    N,
    M1,
    M2,
    M3,
}

/// The event a button name stands for: `m1`/`mleft`, `m2`/`mright`,
/// `m3`/`mmiddle`; anything else is no event.
pub open spec fn event_of(s: Seq<char>) -> ManagedEvent {
    if s == seq!['m', '1'] || s == seq!['m', 'l', 'e', 'f', 't'] {
        ManagedEvent::M1
    } else if s == seq!['m', '2'] || s == seq!['m', 'r', 'i', 'g', 'h', 't'] {
        ManagedEvent::M2
    } else if s == seq!['m', '3'] || s == seq!['m', 'm', 'i', 'd', 'd', 'l', 'e'] {
        ManagedEvent::M3
    } else {
        ManagedEvent::N
    }
}

/// The event a button name (as characters) stands for.
pub fn event_from_chars(v: &[char]) -> (e: ManagedEvent)
    ensures
        e == event_of(v@),
{
    let m1a = ['m', '1'];
    let m1b = ['m', 'l', 'e', 'f', 't'];
    let m2a = ['m', '2'];
    let m2b = ['m', 'r', 'i', 'g', 'h', 't'];
    let m3a = ['m', '3'];
    let m3b = ['m', 'm', 'i', 'd', 'd', 'l', 'e'];
    assert(m1a@ =~= seq!['m', '1']);
    assert(m1b@ =~= seq!['m', 'l', 'e', 'f', 't']);
    assert(m2a@ =~= seq!['m', '2']);
    assert(m2b@ =~= seq!['m', 'r', 'i', 'g', 'h', 't']);
    assert(m3a@ =~= seq!['m', '3']);
    assert(m3b@ =~= seq!['m', 'm', 'i', 'd', 'd', 'l', 'e']);
    if same_chars(v, &m1a) || same_chars(v, &m1b) {
        ManagedEvent::M1
    } else if same_chars(v, &m2a) || same_chars(v, &m2b) {
        ManagedEvent::M2
    } else if same_chars(v, &m3a) || same_chars(v, &m3b) {
        ManagedEvent::M3
    } else {
        ManagedEvent::N
    }
}

/// One step of a sequence: an event, when it happened (milliseconds), and
/// the event that completing the sequence stands for.
#[derive(Clone, Copy, Debug)]
pub struct KeyFrame {
    pub event_code: ManagedEvent,
    pub ev_time: i64,
    pub action_code: ManagedEvent,
}

/// A combo table: combo names with their frames.
pub type ComboTable = Seq<(Seq<char>, Seq<KeyFrame>)>;

/// The name part (before the first `.`) of a combo key such as `zap.combo`.
pub open spec fn combo_name(key: Seq<char>) -> Seq<char> {
    split(key, '.')[0]
}

/// The field part (between the first and second `.`) of a combo key.
pub open spec fn combo_field(key: Seq<char>) -> Seq<char> {
    split(key, '.')[1]
}

/// The field that defines a combo's frames.
pub open spec fn combo_word() -> Seq<char> {
    seq!['c', 'o', 'm', 'b', 'o']
}

/// The frames a combo value `a|b|c` defines: one per piece, the piece's
/// event, spaced `unit` apart and ending `unit` before time zero.
pub open spec fn frames_of(value: Seq<char>, unit: int) -> Seq<KeyFrame> {
    let p = split(value, '|');
    Seq::new(
        p.len(),
        |j: int|
            KeyFrame {
                event_code: event_of(p[j]),
                ev_time: (-unit * p.len() + j * unit) as i64,
                action_code: ManagedEvent::N,
            },
    )
}

/// The names of a combo table.
pub open spec fn names(t: ComboTable) -> Seq<Seq<char>> {
    t.map_values(|p: (Seq<char>, Seq<KeyFrame>)| p.0)
}

/// Adds one `name.field = value` entry to a combo table: the name gets an
/// entry if it has none; a `combo` field appends the value's frames to it.
pub open spec fn table_add(t: ComboTable, key: Seq<char>, value: Seq<char>, unit: int) -> ComboTable {
    let name = combo_name(key);
    let t1 = if names(t).contains(name) {
        t
    } else {
        t.push((name, Seq::<KeyFrame>::empty()))
    };
    if combo_field(key) == combo_word() {
        let i = names(t1).index_of(name);
        t1.update(i, (name, t1[i].1 + frames_of(value, unit)))
    } else {
        t1
    }
}

/// The combo table that a sequence of `name.field = value` entries builds,
/// in order.
pub open spec fn combo_table(entries: Seq<Entry>, unit: int) -> ComboTable
    decreases entries.len(),
{
    if entries.len() == 0 {
        Seq::empty()
    } else {
        let e = entries.last();
        table_add(combo_table(entries.drop_last(), unit), e.0, e.1, unit)
    }
}

/// An entry can be added without a panic: its key has a field, and a combo
/// value's time span fits in an `i64`.
pub open spec fn entry_fits(e: Entry, unit: int) -> bool {
    &&& split(e.0, '.').len() >= 2
    &&& combo_field(e.0) == combo_word() ==> {
        &&& unit != i64::MIN
        &&& i64::MIN <= -unit * split(e.1, '|').len() <= i64::MAX
    }
}

/// The combo entries of a configuration.
pub open spec fn combo_entries(cfg: Seq<Entry>) -> Seq<Entry> {
    filtered(cfg, "input.combos.pat."@)
}

/// The configuration defines a usable combo setup: the unit interval is
/// there and is a decimal `i64`, and every combo entry fits.
pub open spec fn input_config_ok(cfg: Seq<Entry>) -> bool {
    &&& cuts_cleanly(cfg, "input.combos.unit-interval"@)
    &&& filtered(cfg, "input.combos.unit-interval"@).len() > 0
    &&& parse_i64(filtered(cfg, "input.combos.unit-interval"@)[0].1) is Some
    &&& cuts_cleanly(cfg, "input.combos.pat."@)
    &&& forall|k: int|
        0 <= k < combo_entries(cfg).len() ==> entry_fits(
            #[trigger] combo_entries(cfg)[k],
            parse_i64(filtered(cfg, "input.combos.unit-interval"@)[0].1)->0 as int,
        )
}

/// The unit interval a configuration sets.
pub open spec fn config_unit(cfg: Seq<Entry>) -> i64 {
    parse_i64(filtered(cfg, "input.combos.unit-interval"@)[0].1)->0
}

/// Tracks pointer events and turns them into actions, recognising the
/// configured combos.
pub struct ManagedInput {
    key_frames: Vec<KeyFrame>,
    init_time: SystemTime,
    combo_frames: Vec<(String, Vec<KeyFrame>)>,
    unit_interval: i64,
}

/// The text view of the stored combos.
pub open spec fn table_view(v: Seq<(String, Vec<KeyFrame>)>) -> ComboTable {
    v.map_values(|p: (String, Vec<KeyFrame>)| (p.0@, p.1@))
}

impl ManagedInput {
    /// The events received so far, oldest first.
    pub closed spec fn frames(&self) -> Seq<KeyFrame> {
        self.key_frames@
    }

    /// The configured combos.
    pub closed spec fn combos(&self) -> ComboTable {
        table_view(self.combo_frames@)
    }

    /// The unit interval, in milliseconds.
    pub closed spec fn unit(&self) -> i64 {
        self.unit_interval
    }
}

} // verus!

verus! {

proof fn lemma_frame_time_fits(u: int, n: int, j: int)
    requires
        0 <= j <= n,
        i64::MIN <= -u * n <= i64::MAX,
    ensures
        i64::MIN <= -u * n + j * u <= i64::MAX,
{
    assert(-u * n + j * u == u * (j - n)) by (nonlinear_arith);
    if u >= 0 {
        assert(u * (j - n) <= 0) by (nonlinear_arith)
            requires
                u >= 0,
                j - n <= 0,
        ;
        assert(u * (j - n) >= -u * n) by (nonlinear_arith)
            requires
                u >= 0,
                j >= 0,
        ;
    } else {
        assert(u * (j - n) >= 0) by (nonlinear_arith)
            requires
                u < 0,
                j - n <= 0,
        ;
        assert(u * (j - n) <= -u * n) by (nonlinear_arith)
            requires
                u < 0,
                j >= 0,
        ;
    }
}

/// The frames of a combo value, or `None` where their times do not fit.
fn build_frames(value: &Vec<char>, unit: i64) -> (r: Option<Vec<KeyFrame>>)
    ensures
        r is Some <==> (unit != i64::MIN && i64::MIN <= -unit * split(value@, '|').len()
            <= i64::MAX),
        r matches Some(f) ==> f@ == frames_of(value@, unit as int),
{
    let pieces = split_chars(value, '|');
    let n = pieces.len();
    assert(char_views(pieces@).len() == split(value@, '|').len());
    if unit == i64::MIN {
        return None;
    }
    let neg: i128 = -(unit as i128);
    assert(neg * n <= 0x7fff_ffff_ffff_ffff * 0xffff_ffff_ffff_ffff) by (nonlinear_arith)
        requires
            0 <= n <= 0xffff_ffff_ffff_ffff,
            -0x7fff_ffff_ffff_ffff <= neg <= 0x7fff_ffff_ffff_ffff,
    ;
    assert(neg * n >= -0x7fff_ffff_ffff_ffff * 0xffff_ffff_ffff_ffff) by (nonlinear_arith)
        requires
            0 <= n <= 0xffff_ffff_ffff_ffff,
            -0x7fff_ffff_ffff_ffff <= neg <= 0x7fff_ffff_ffff_ffff,
    ;
    let start: i128 = neg * (n as i128);
    if start < i64::MIN as i128 || start > i64::MAX as i128 {
        return None;
    }
    let ghost want = frames_of(value@, unit as int);
    let mut out: Vec<KeyFrame> = Vec::new();
    let mut j: usize = 0;
    while j < n
        invariant
            j <= n,
            n == pieces@.len(),
            char_views(pieces@) == split(value@, '|'),
            start == -unit * n,
            i64::MIN <= start <= i64::MAX,
            want == frames_of(value@, unit as int),
            out@ == want.take(j as int),
        decreases n - j,
    {
        proof {
            lemma_frame_time_fits(unit as int, n as int, j as int);
            assert(j * unit <= 0x1_0000_0000_0000_0000 * 0x8000_0000_0000_0000) by (nonlinear_arith)
                requires
                    0 <= j < 0x1_0000_0000_0000_0000,
                    -0x8000_0000_0000_0000 <= unit < 0x8000_0000_0000_0000,
            ;
            assert(j * unit >= -0x1_0000_0000_0000_0000 * 0x8000_0000_0000_0000) by (nonlinear_arith)
                requires
                    0 <= j < 0x1_0000_0000_0000_0000,
                    -0x8000_0000_0000_0000 <= unit < 0x8000_0000_0000_0000,
            ;
        }
        let t: i128 = start + (j as i128) * (unit as i128);
        let ev = event_from_chars(&pieces[j]);
        assert(char_views(pieces@)[j as int] == pieces@[j as int]@);
        out.push(KeyFrame { event_code: ev, ev_time: t as i64, action_code: ManagedEvent::N });
        assert(out@ =~= want.take(j + 1));
        j += 1;
    }
    assert(want.take(n as int) =~= want);
    Some(out)
}

/// The position of the combo called `name`, if there is one.
fn find_combo(t: &Vec<(String, Vec<KeyFrame>)>, name: &String) -> (r: Option<usize>)
    ensures
        match r {
            Some(i) => i < t@.len() && names(table_view(t@))[i as int] == name@,
            None => !names(table_view(t@)).contains(name@),
        },
{
    let mut i: usize = 0;
    while i < t.len()
        invariant
            i <= t@.len(),
            forall|j: int| 0 <= j < i ==> names(table_view(t@))[j] != name@,
        decreases t.len() - i,
    {
        if t[i].0 == *name {
            return Some(i);
        }
        i += 1;
    }
    None
}

/// The frames of a stored combo, copied.
fn copy_frames(v: &Vec<KeyFrame>) -> (r: Vec<KeyFrame>)
    ensures
        r@ == v@,
{
    let mut r: Vec<KeyFrame> = Vec::new();
    let mut i: usize = 0;
    while i < v.len()
        invariant
            i <= v@.len(),
            r@ == v@.take(i as int),
        decreases v.len() - i,
    {
        r.push(v[i]);
        assert(r@ =~= v@.take(i + 1));
        i += 1;
    }
    assert(v@.take(v@.len() as int) =~= v@);
    r
}

/// No two combos share a name.
pub open spec fn names_distinct(t: ComboTable) -> bool {
    forall|i: int, j: int| 0 <= i < j < t.len() ==> t[i].0 != t[j].0
}

/// Building from a distinct table keeps it distinct.
pub proof fn lemma_table_add_distinct(t: ComboTable, key: Seq<char>, value: Seq<char>, unit: int)
    requires
        names_distinct(t),
    ensures
        names_distinct(table_add(t, key, value, unit)),
{
    let name = combo_name(key);
    let t1 = if names(t).contains(name) {
        t
    } else {
        t.push((name, Seq::<KeyFrame>::empty()))
    };
    assert(names_distinct(t1)) by {
        if !names(t).contains(name) {
            assert forall|i: int, j: int| 0 <= i < j < t1.len() implies t1[i].0 != t1[j].0 by {
                if j == t.len() {
                    assert(names(t)[i] == t[i].0);
                }
            }
        }
    }
    if combo_field(key) == combo_word() {
        assert(names(t1).contains(name)) by {
            if names(t).contains(name) {
            } else {
                assert(names(t1)[t.len() as int] == name);
            }
        }
        let i = names(t1).index_of(name);
        assert(names(t1)[i] == name);
        let t2 = t1.update(i, (name, t1[i].1 + frames_of(value, unit)));
        assert forall|a: int, b: int| 0 <= a < b < t2.len() implies t2[a].0 != t2[b].0 by {
            assert(names(t1)[a] == t1[a].0);
            assert(names(t1)[b] == t1[b].0);
        }
    }
}

/// The combo table of any entries has distinct names.
pub proof fn lemma_combo_table_distinct(entries: Seq<Entry>, unit: int)
    ensures
        names_distinct(combo_table(entries, unit)),
    decreases entries.len(),
{
    if entries.len() > 0 {
        lemma_combo_table_distinct(entries.drop_last(), unit);
        let e = entries.last();
        lemma_table_add_distinct(combo_table(entries.drop_last(), unit), e.0, e.1, unit);
    }
}

} // verus!

verus! {

impl ManagedInput {
    /// Well-formedness: no two combos share a name.
    pub closed spec fn wf(&self) -> bool {
        names_distinct(self.combos())
    }

    /// Reads the combo setup from a configuration, or `None` where reading it
    /// would fail: the unit interval missing or not a decimal `i64`, a combo
    /// key without a field, or a combo whose times do not fit in an `i64`.
    pub fn try_new(cfg: &Vec<(String, String)>) -> (r: Option<Self>)
        ensures
            r is Some <==> input_config_ok(entry_views(cfg@)),
            r matches Some(m) ==> {
                &&& m.wf()
                &&& m.frames() == Seq::<KeyFrame>::empty()
                &&& m.unit() == config_unit(entry_views(cfg@))
                &&& m.combos() == combo_table(combo_entries(entry_views(cfg@)), m.unit() as int)
            },
    {
        let ghost cv = entry_views(cfg@);
        if !crate::helpers::cuts_cleanly_check(cfg, "input.combos.unit-interval") {
            return None;
        }
        let uf = _filtered(cfg, "input.combos.unit-interval");
        if uf.len() == 0 {
            return None;
        }
        assert(entry_views(uf@)[0] == (uf@[0].0@, uf@[0].1@));
        let unit = match parse_i64_chars(&chars_of(uf[0].1.as_str())) {
            Some(u) => u,
            None => {
                return None;
            },
        };
        assert(unit == config_unit(cv));
        if !crate::helpers::cuts_cleanly_check(cfg, "input.combos.pat.") {
            return None;
        }
        let entries = _filtered(cfg, "input.combos.pat.");
        let ghost ev = entry_views(entries@);
        assert(ev == combo_entries(cv));
        let combo = ['c', 'o', 'm', 'b', 'o'];
        assert(combo@ =~= combo_word());
        let mut combo_frames: Vec<(String, Vec<KeyFrame>)> = Vec::new();
        let mut k: usize = 0;
        assert(ev.take(0) =~= Seq::<Entry>::empty());
        while k < entries.len()
            invariant
                k <= entries@.len(),
                ev == entry_views(entries@),
                ev == combo_entries(cv),
                cv == entry_views(cfg@),
                unit == config_unit(cv),
                combo@ == combo_word(),
                table_view(combo_frames@) == combo_table(ev.take(k as int), unit as int),
                forall|j: int| 0 <= j < k ==> entry_fits(#[trigger] ev[j], unit as int),
            decreases entries.len() - k,
        {
            let ghost tv = table_view(combo_frames@);
            assert(ev[k as int] == (entries@[k as int].0@, entries@[k as int].1@));
            assert(ev.take(k + 1).drop_last() =~= ev.take(k as int));
            proof {
                lemma_combo_table_distinct(ev.take(k as int), unit as int);
            }
            let key = chars_of(entries[k].0.as_str());
            let pieces = split_chars(&key, '.');
            assert(char_views(pieces@) == split(key@, '.'));
            if pieces.len() < 2 {
                assert(!entry_fits(combo_entries(cv)[k as int], config_unit(cv) as int));
                return None;
            }
            assert(char_views(pieces@)[0] == pieces@[0]@);
            assert(char_views(pieces@)[1] == pieces@[1]@);
            let name = string_of(&pieces[0]);
            let idx: usize = match find_combo(&combo_frames, &name) {
                Some(i) => i,
                None => {
                    combo_frames.push((name.clone(), Vec::new()));
                    assert(table_view(combo_frames@) =~= tv.push((name@, Seq::<KeyFrame>::empty())));
                    combo_frames.len() - 1
                },
            };
            let ghost t1 = table_view(combo_frames@);
            assert(names(t1)[idx as int] == name@);
            assert(names_distinct(t1)) by {
                if !names(tv).contains(name@) {
                    assert forall|a: int, b: int| 0 <= a < b < t1.len() implies t1[a].0 != t1[b].0 by {
                        if b == tv.len() {
                            assert(names(tv)[a] == tv[a].0);
                        }
                    }
                }
            }
            if same_chars(&pieces[1], &combo) {
                let value = chars_of(entries[k].1.as_str());
                match build_frames(&value, unit) {
                    None => {
                        assert(!entry_fits(combo_entries(cv)[k as int], config_unit(cv) as int));
                        return None;
                    },
                    Some(f) => {
                        let mut fr = copy_frames(&combo_frames[idx].1);
                        let mut more = f;
                        fr.append(&mut more);
                        combo_frames.set(idx, (name, fr));
                        proof {
                            let i = names(t1).index_of(name@);
                            assert(names(t1).contains(name@));
                            assert(names(t1)[i] == name@);
                            assert(names(t1)[i] == t1[i].0);
                            assert(names(t1)[idx as int] == t1[idx as int].0);
                            assert(i == idx);
                            assert(table_view(combo_frames@) =~= t1.update(
                                i,
                                (name@, t1[i].1 + frames_of(value@, unit as int)),
                            ));
                        }
                    },
                }
            } else {
                assert(table_view(combo_frames@) == t1);
            }
            assert(table_view(combo_frames@) == combo_table(ev.take(k + 1), unit as int));
            assert(entry_fits(ev[k as int], unit as int));
            k += 1;
        }
        assert(ev.take(entries@.len() as int) =~= ev);
        proof {
            lemma_combo_table_distinct(ev, unit as int);
        }
        let init_time = system_now();
        Some(ManagedInput { key_frames: Vec::new(), init_time, combo_frames, unit_interval: unit })
    }

    /// Reads the combo setup from a configuration (see `try_new`); the
    /// configuration must define a usable one.
    pub fn new(cfg: &Vec<(String, String)>) -> (r: Self)
        requires
            input_config_ok(entry_views(cfg@)),
        ensures
            r.wf(),
            r.frames() == Seq::<KeyFrame>::empty(),
            r.unit() == config_unit(entry_views(cfg@)),
            r.combos() == combo_table(combo_entries(entry_views(cfg@)), r.unit() as int),
    {
        Self::try_new(cfg).unwrap()
    }
}

} // verus!

verus! {

/// Absolute value.
pub open spec fn abs_int(x: int) -> int {
    if x < 0 {
        -x
    } else {
        x
    }
}

/// Distance (doubled) between where combo frame `f` sits, placed at time
/// `enow`, and the received event `kf`.
pub open spec fn gap2(enow: int, f: KeyFrame, kf: KeyFrame) -> int {
    abs_int(enow + f.ev_time - kf.ev_time) * 2
}

/// Some received event lines up, within half a unit, with a combo frame of
/// the same event.
pub open spec fn combo_hit(combo: Seq<KeyFrame>, frames: Seq<KeyFrame>, enow: int, unit: int) -> bool {
    exists|i: int, j: int|
        0 <= i < frames.len() && 0 <= j < combo.len() && combo[j].event_code
            == frames[i].event_code && #[trigger] gap2(enow, combo[j], frames[i]) < unit
}

/// The received event `kf` rules the combo out: it lies more than half a
/// unit from the combo's last frame, or lines up with a frame of another event.
pub open spec fn spoils(combo: Seq<KeyFrame>, kf: KeyFrame, enow: int, unit: int) -> bool {
    gap2(enow, combo.last(), kf) > unit || exists|j: int|
        0 <= j < combo.len() && #[trigger] gap2(enow, combo[j], kf) < unit && combo[j].event_code
            != kf.event_code
}

/// Some received event rules the combo out.
pub open spec fn combo_spoiled(combo: Seq<KeyFrame>, frames: Seq<KeyFrame>, enow: int, unit: int) -> bool {
    exists|i: int| 0 <= i < frames.len() && #[trigger] spoils(combo, frames[i], enow, unit)
}

/// A combo is recognised at time `enow`: hit and not spoiled.
pub open spec fn combo_matched(combo: Seq<KeyFrame>, frames: Seq<KeyFrame>, enow: int, unit: int) -> bool {
    combo_hit(combo, frames, enow, unit) && !combo_spoiled(combo, frames, enow, unit)
}

/// The positions, among the first `n` combos, of those recognised.
pub open spec fn matched_upto(t: ComboTable, frames: Seq<KeyFrame>, enow: int, unit: int, n: int) -> Seq<int>
    decreases n,
{
    if n <= 0 {
        Seq::empty()
    } else {
        let r = matched_upto(t, frames, enow, unit, n - 1);
        if combo_matched(t[n - 1].1, frames, enow, unit) {
            r.push(n - 1)
        } else {
            r
        }
    }
}

/// What the received events resolve to at time `enow`: the action of the
/// one recognised combo (its last frame's); no event when several are
/// recognised; the latest event itself when none is.
pub open spec fn resolution(t: ComboTable, frames: Seq<KeyFrame>, enow: int, unit: int) -> ManagedEvent {
    let m = matched_upto(t, frames, enow, unit, t.len() as int);
    if m.len() == 1 {
        t[m[0]].1.last().action_code
    } else if m.len() > 1 {
        ManagedEvent::N
    } else {
        frames.last().event_code
    }
}

proof fn lemma_matched_upto_bounds(t: ComboTable, frames: Seq<KeyFrame>, enow: int, unit: int, n: int)
    requires
        0 <= n <= t.len(),
    ensures
        forall|k: int|
            0 <= k < matched_upto(t, frames, enow, unit, n).len() ==> 0 <= #[trigger] matched_upto(
                t,
                frames,
                enow,
                unit,
                n,
            )[k] < n,
    decreases n,
{
    if n > 0 {
        lemma_matched_upto_bounds(t, frames, enow, unit, n - 1);
        let r = matched_upto(t, frames, enow, unit, n - 1);
        let m = matched_upto(t, frames, enow, unit, n);
        assert forall|k: int| 0 <= k < m.len() implies 0 <= #[trigger] m[k] < n by {
            if k < r.len() {
                assert(m[k] == r[k]);
            }
        }
    }
}

/// The doubled gap, computed without overflow.
fn gap2_exec(enow: i64, f: &KeyFrame, kf: &KeyFrame) -> (g: i128)
    ensures
        g == gap2(enow as int, *f, *kf),
{
    let d: i128 = enow as i128 + f.ev_time as i128 - kf.ev_time as i128;
    let a: i128 = if d < 0 {
        -d
    } else {
        d
    };
    a * 2
}

fn hit_exec(combo: &Vec<KeyFrame>, frames: &Vec<KeyFrame>, enow: i64, unit: i64) -> (b: bool)
    ensures
        b == combo_hit(combo@, frames@, enow as int, unit as int),
{
    let mut i: usize = 0;
    while i < frames.len()
        invariant
            i <= frames@.len(),
            forall|a: int, j: int|
                0 <= a < i && 0 <= j < combo@.len() && combo@[j].event_code
                    == frames@[a].event_code ==> !(#[trigger] gap2(
                    enow as int,
                    combo@[j],
                    frames@[a],
                ) < unit),
        decreases frames.len() - i,
    {
        let mut j: usize = 0;
        while j < combo.len()
            invariant
                i < frames@.len(),
                j <= combo@.len(),
                forall|a: int, c: int|
                    0 <= a < i && 0 <= c < combo@.len() && combo@[c].event_code
                        == frames@[a].event_code ==> !(#[trigger] gap2(
                        enow as int,
                        combo@[c],
                        frames@[a],
                    ) < unit),
                forall|c: int|
                    0 <= c < j && combo@[c].event_code == frames@[i as int].event_code ==> !(
                    #[trigger] gap2(enow as int, combo@[c], frames@[i as int]) < unit),
            decreases combo.len() - j,
        {
            if combo[j].event_code == frames[i].event_code && gap2_exec(enow, &combo[j], &frames[i])
                < unit as i128 {
                assert(gap2(enow as int, combo@[j as int], frames@[i as int]) < unit);
                return true;
            }
            j += 1;
        }
        i += 1;
    }
    false
}

fn spoiled_exec(combo: &Vec<KeyFrame>, frames: &Vec<KeyFrame>, enow: i64, unit: i64) -> (b: bool)
    requires
        combo@.len() > 0,
    ensures
        b == combo_spoiled(combo@, frames@, enow as int, unit as int),
{
    let last = combo[combo.len() - 1];
    assert(last == combo@.last());
    let mut i: usize = 0;
    while i < frames.len()
        invariant
            i <= frames@.len(),
            combo@.len() > 0,
            last == combo@.last(),
            forall|a: int| 0 <= a < i ==> !#[trigger] spoils(combo@, frames@[a], enow as int, unit as int),
        decreases frames.len() - i,
    {
        if gap2_exec(enow, &last, &frames[i]) > unit as i128 {
            assert(spoils(combo@, frames@[i as int], enow as int, unit as int));
            return true;
        }
        let mut j: usize = 0;
        while j < combo.len()
            invariant
                i < frames@.len(),
                j <= combo@.len(),
                forall|c: int|
                    0 <= c < j ==> !(#[trigger] gap2(enow as int, combo@[c], frames@[i as int]) < unit
                        && combo@[c].event_code != frames@[i as int].event_code),
            decreases combo.len() - j,
        {
            if gap2_exec(enow, &combo[j], &frames[i]) < unit as i128 && combo[j].event_code
                != frames[i].event_code {
                assert(spoils(combo@, frames@[i as int], enow as int, unit as int));
                return true;
            }
            j += 1;
        }
        assert(!spoils(combo@, frames@[i as int], enow as int, unit as int));
        i += 1;
    }
    false
}

impl ManagedInput {
    /// What the received events resolve to at time `enow` (milliseconds
    /// since this input began); there must be at least one event.
    pub fn resolve_at(&self, enow: i64) -> (r: ManagedEvent)
        requires
            self.frames().len() > 0,
        ensures
            r == resolution(self.combos(), self.frames(), enow as int, self.unit() as int),
    {
        let ghost t = self.combos();
        let ghost fr = self.frames();
        let ghost unit = self.unit() as int;
        let mut count: usize = 0;
        let mut first: usize = 0;
        let mut c: usize = 0;
        while c < self.combo_frames.len()
            invariant
                c <= self.combo_frames@.len(),
                t == self.combos(),
                fr == self.frames(),
                unit == self.unit() as int,
                count == matched_upto(t, fr, enow as int, unit, c as int).len(),
                count > 0 ==> first == matched_upto(t, fr, enow as int, unit, c as int)[0],
                count <= c,
            decreases self.combo_frames.len() - c,
        {
            let combo = &self.combo_frames[c].1;
            assert(t[c as int].1 == combo@);
            let matched = combo.len() > 0 && hit_exec(combo, &self.key_frames, enow, self.unit_interval)
                && !spoiled_exec(combo, &self.key_frames, enow, self.unit_interval);
            assert(combo@.len() == 0 ==> !combo_hit(combo@, fr, enow as int, unit));
            assert(matched == combo_matched(t[c as int].1, fr, enow as int, unit));
            if matched {
                if count == 0 {
                    first = c;
                }
                count += 1;
            }
            c += 1;
        }
        proof {
            lemma_matched_upto_bounds(t, fr, enow as int, unit, t.len() as int);
        }
        if count == 1 {
            let combo = &self.combo_frames[first].1;
            assert(t[first as int].1 == combo@);
            assert(combo@.len() > 0) by {
                assert(combo_hit(t[first as int].1, fr, enow as int, unit)) by {
                    lemma_matched_upto_member(t, fr, enow as int, unit, t.len() as int, 0);
                }
            }
            combo[combo.len() - 1].action_code
        } else if count > 1 {
            ManagedEvent::N
        } else {
            self.key_frames[self.key_frames.len() - 1].event_code
        }
    }
}

proof fn lemma_matched_upto_member(t: ComboTable, frames: Seq<KeyFrame>, enow: int, unit: int, n: int, k: int)
    requires
        0 <= n <= t.len(),
        0 <= k < matched_upto(t, frames, enow, unit, n).len(),
    ensures
        combo_matched(t[matched_upto(t, frames, enow, unit, n)[k]].1, frames, enow, unit),
    decreases n,
{
    if n > 0 {
        let r = matched_upto(t, frames, enow, unit, n - 1);
        if k < r.len() {
            lemma_matched_upto_member(t, frames, enow, unit, n - 1, k);
        }
    }
}

} // verus!

verus! {

impl ManagedInput {
    /// Milliseconds since this input began, by the system clock (truncated to
    /// an `i64`); `None` when the clock now reads earlier than it did then.
    pub fn ev_time(&self) -> (r: Option<i64>) {
        let now = system_now();
        match duration_since(&now, &self.init_time) {
            Some(d) => {
                let ms = duration_millis(&d);
                Some(ms as i64)
            },
            None => None,
        }
    }

    /// The event a button name stands for (`m1`, `mleft`, ...).
    pub fn event_from(s: &str) -> (e: ManagedEvent)
        ensures
            e == event_of(s@),
    {
        let v = chars_of(s);
        event_from_chars(&v)
    }

    /// Records `event_code` at the current time and resolves the events
    /// received so far at a second reading of the clock. Whatever the clock
    /// gives: on `Some`, the event was appended with some time `t` and the
    /// result is the resolution at some time `enow`; on `None` (the clock went
    /// backwards) the events are unchanged or have the new one appended.
    pub fn translate(&mut self, event_code: ManagedEvent) -> (r: Option<ManagedEvent>)
        ensures
            final(self).combos() == old(self).combos(),
            final(self).unit() == old(self).unit(),
            final(self).wf() == old(self).wf(),
            r matches Some(e) ==> exists|t: i64, enow: i64|
                {
                    &&& final(self).frames() == old(self).frames().push(
                        KeyFrame { event_code, ev_time: t, action_code: ManagedEvent::N },
                    )
                    &&& e == resolution(
                        old(self).combos(),
                        final(self).frames(),
                        enow as int,
                        old(self).unit() as int,
                    )
                },
            r is None ==> final(self).frames() == old(self).frames() || exists|t: i64|
                final(self).frames() == old(self).frames().push(
                    KeyFrame { event_code, ev_time: t, action_code: ManagedEvent::N },
                ),
    {
        let t = match self.ev_time() {
            Some(t) => t,
            None => {
                return None;
            },
        };
        self.key_frames.push(KeyFrame { event_code, ev_time: t, action_code: ManagedEvent::N });
        match self.ev_time() {
            Some(enow) => {
                let e = self.resolve_at(enow);
                let ghost kf = KeyFrame { event_code, ev_time: t, action_code: ManagedEvent::N };
                assert(self.frames() == old(self).frames().push(kf));
                assert(e == resolution(old(self).combos(), self.frames(), enow as int, old(self).unit() as int));
                Some(e)
            },
            None => None,
        }
    }
}

} // verus!

verus! {

/// With no combos configured every event passes through unchanged: the
/// resolution is the latest event.
pub proof fn lemma_no_combos_pass_through(frames: Seq<KeyFrame>, enow: int, unit: int)
    ensures
        resolution(Seq::empty(), frames, enow, unit) == frames.last().event_code,
{
}

/// A recognised combo is always one that some received event hits: a
/// combo no event lines up with is never recognised, whatever the time.
pub proof fn lemma_recognised_combo_is_hit(
    t: ComboTable,
    frames: Seq<KeyFrame>,
    enow: int,
    unit: int,
    k: int,
)
    requires
        0 <= k < matched_upto(t, frames, enow, unit, t.len() as int).len(),
    ensures
        combo_hit(t[matched_upto(t, frames, enow, unit, t.len() as int)[k]].1, frames, enow, unit),
{
    lemma_matched_upto_member(t, frames, enow, unit, t.len() as int, k);
}

} // verus!

verus! {

proof fn lemma_matched_upto_empty(t: ComboTable, frames: Seq<KeyFrame>, enow: int, unit: int, n: int)
    requires
        0 <= n <= t.len(),
        forall|c: int| 0 <= c < t.len() ==> !combo_hit(#[trigger] t[c].1, frames, enow, unit),
    ensures
        matched_upto(t, frames, enow, unit, n).len() == 0,
    decreases n,
{
    if n > 0 {
        lemma_matched_upto_empty(t, frames, enow, unit, n - 1);
    }
}

/// When no combo has a frame lined up, within half a unit, with a received
/// event of the same kind, the latest event passes through unchanged.
pub proof fn lemma_unhit_events_pass_through(t: ComboTable, frames: Seq<KeyFrame>, enow: int, unit: int)
    requires
        forall|c: int| 0 <= c < t.len() ==> !combo_hit(#[trigger] t[c].1, frames, enow, unit),
    ensures
        resolution(t, frames, enow, unit) == frames.last().event_code,
{
    lemma_matched_upto_empty(t, frames, enow, unit, t.len() as int);
}

} // verus!
