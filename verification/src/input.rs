//! The input sampler: turns per-tick polled snapshots of the keyboard and
//! mouse into an edge-triggered event stream.
//!
//! Per tick the sampler emits, in this order: the mouse event (a move when
//! the cursor changed, otherwise an idle event when idle reporting is
//! enabled), one `KeyDown` per newly pressed key in snapshot order, and one
//! `KeyUp` per released key in the order the sampler recorded the presses.

use vstd::prelude::*;
use crate::event::Event;
use crate::event::MousePos;
use crate::keyset::KeySet;
use crate::keyset::nodup;

verus! {

broadcast use vstd::seq_lib::group_seq_properties;

/// The mouse event of one tick: a move exactly when the position changed,
/// otherwise an idle report when the idle variant is configured.
pub open spec fn mouse_events_of(last: MousePos, cur: MousePos, emit_idle: bool) -> Seq<Event> {
    if cur != last {
        seq![Event::MouseMove { pos: cur }]
    } else if emit_idle {
        seq![Event::MouseIdle { pos: cur }]
    } else {
        Seq::empty()
    }
}

/// The rising-edge events of one tick: a `KeyDown` for each snapshot code
/// not already believed pressed, in snapshot order.
pub open spec fn downs_of(pressed: Set<u32>, codes: Seq<u32>) -> Seq<Event>
    decreases codes.len(),
{
    if codes.len() == 0 {
        Seq::empty()
    } else {
        downs_of(pressed, codes.drop_last()) + (if pressed.contains(codes.last()) {
            Seq::empty()
        } else {
            seq![Event::KeyDown { code: codes.last() }]
        })
    }
}

/// The falling-edge events of one tick: a `KeyUp` for each previously
/// pressed code missing from the snapshot, in recorded order.
pub open spec fn ups_of(pressed: Seq<u32>, keys: Set<u32>) -> Seq<Event>
    decreases pressed.len(),
{
    if pressed.len() == 0 {
        Seq::empty()
    } else {
        ups_of(pressed.drop_last(), keys) + (if keys.contains(pressed.last()) {
            Seq::empty()
        } else {
            seq![Event::KeyUp { code: pressed.last() }]
        })
    }
}

/// The previously pressed codes that stay pressed, in recorded order.
pub open spec fn kept_of(pressed: Seq<u32>, keys: Set<u32>) -> Seq<u32>
    decreases pressed.len(),
{
    if pressed.len() == 0 {
        Seq::empty()
    } else {
        kept_of(pressed.drop_last(), keys) + (if keys.contains(pressed.last()) {
            seq![pressed.last()]
        } else {
            Seq::empty()
        })
    }
}

/// The snapshot codes that are newly pressed, in snapshot order.
pub open spec fn news_of(pressed: Set<u32>, codes: Seq<u32>) -> Seq<u32>
    decreases codes.len(),
{
    if codes.len() == 0 {
        Seq::empty()
    } else {
        news_of(pressed, codes.drop_last()) + (if pressed.contains(codes.last()) {
            Seq::empty()
        } else {
            seq![codes.last()]
        })
    }
}

/// The effect of one event on a believed pressed-set: a `KeyDown` inserts
/// its code, a `KeyUp` removes it, every other event changes nothing.
pub open spec fn apply_key_event(pressed: Set<u32>, e: Event) -> Set<u32> {
    match e {
        Event::KeyDown { code } => pressed.insert(code),
        Event::KeyUp { code } => pressed.remove(code),
        _ => pressed,
    }
}

/// Replays an event stream onto a believed pressed-set, event by event.
pub open spec fn replay_keys(pressed: Set<u32>, events: Seq<Event>) -> Set<u32>
    decreases events.len(),
{
    if events.len() == 0 {
        pressed
    } else {
        apply_key_event(replay_keys(pressed, events.drop_last()), events.last())
    }
}

proof fn lemma_replay_concat(s: Set<u32>, a: Seq<Event>, b: Seq<Event>)
    ensures
        replay_keys(s, a + b) == replay_keys(replay_keys(s, a), b),
    decreases b.len(),
{
    if b.len() == 0 {
        assert(a + b =~= a);
    } else {
        lemma_replay_concat(s, a, b.drop_last());
        assert((a + b).drop_last() =~= a + b.drop_last());
        assert((a + b).last() == b.last());
    }
}

proof fn lemma_replay_downs(s: Set<u32>, codes: Seq<u32>)
    ensures
        replay_keys(s, downs_of(s, codes)) == s.union(codes.to_set()),
    decreases codes.len(),
{
    if codes.len() == 0 {
        assert(s.union(codes.to_set()) =~= s);
    } else {
        let rest = codes.drop_last();
        let c = codes.last();
        assert(codes =~= rest.push(c));
        lemma_replay_downs(s, rest);
        if s.contains(c) {
            let piece = Seq::<Event>::empty();
            lemma_replay_concat(s, downs_of(s, rest), piece);
            assert(downs_of(s, rest) + piece =~= downs_of(s, rest));
            assert(s.union(codes.to_set()) =~= s.union(rest.to_set()));
        } else {
            let piece = seq![Event::KeyDown { code: c }];
            lemma_replay_concat(s, downs_of(s, rest), piece);
            assert(piece.drop_last() =~= Seq::<Event>::empty());
            assert(replay_keys(s.union(rest.to_set()), piece) == s.union(rest.to_set()).insert(
                c,
            ));
            assert(s.union(codes.to_set()) =~= s.union(rest.to_set()).insert(c));
        }
    }
}

proof fn lemma_replay_ups(t: Set<u32>, pressed: Seq<u32>, keys: Set<u32>)
    ensures
        replay_keys(t, ups_of(pressed, keys)) == t.difference(
            pressed.to_set().difference(keys),
        ),
    decreases pressed.len(),
{
    if pressed.len() == 0 {
        assert(t.difference(pressed.to_set().difference(keys)) =~= t);
    } else {
        let rest = pressed.drop_last();
        let c = pressed.last();
        assert(pressed =~= rest.push(c));
        lemma_replay_ups(t, rest, keys);
        if keys.contains(c) {
            let piece = Seq::<Event>::empty();
            lemma_replay_concat(t, ups_of(rest, keys), piece);
            assert(ups_of(rest, keys) + piece =~= ups_of(rest, keys));
            assert(t.difference(pressed.to_set().difference(keys)) =~= t.difference(
                rest.to_set().difference(keys),
            ));
        } else {
            let piece = seq![Event::KeyUp { code: c }];
            lemma_replay_concat(t, ups_of(rest, keys), piece);
            assert(piece.drop_last() =~= Seq::<Event>::empty());
            assert(replay_keys(t.difference(rest.to_set().difference(keys)), piece)
                == t.difference(rest.to_set().difference(keys)).remove(c));
            assert(t.difference(pressed.to_set().difference(keys)) =~= t.difference(
                rest.to_set().difference(keys),
            ).remove(c));
        }
    }
}

/// Law (edge correctness of one tick): replaying the key events a tick
/// emits onto the pressed-set believed before the tick reconstructs the
/// polled key set exactly, whatever the two states were.
pub proof fn lemma_tick_key_events_replay(pressed: Seq<u32>, codes: Seq<u32>)
    ensures
        replay_keys(
            pressed.to_set(),
            downs_of(pressed.to_set(), codes) + ups_of(pressed, codes.to_set()),
        ) == codes.to_set(),
{
    let s = pressed.to_set();
    let k = codes.to_set();
    lemma_replay_concat(s, downs_of(s, codes), ups_of(pressed, k));
    lemma_replay_downs(s, codes);
    lemma_replay_ups(s.union(k), pressed, k);
    assert(s.union(k).difference(s.difference(k)) =~= k);
}

/// The codes the sampler believes pressed after diffing every snapshot in
/// `snaps`, tick by tick, starting from nothing pressed.
pub open spec fn run_pressed(snaps: Seq<Seq<u32>>) -> Seq<u32>
    decreases snaps.len(),
{
    if snaps.len() == 0 {
        Seq::empty()
    } else {
        let prev = run_pressed(snaps.drop_last());
        kept_of(prev, snaps.last().to_set()) + news_of(prev.to_set(), snaps.last())
    }
}

/// The key events a whole run of snapshots emits, tick after tick.
pub open spec fn run_key_events(snaps: Seq<Seq<u32>>) -> Seq<Event>
    decreases snaps.len(),
{
    if snaps.len() == 0 {
        Seq::empty()
    } else {
        let prev = run_pressed(snaps.drop_last());
        run_key_events(snaps.drop_last()) + downs_of(prev.to_set(), snaps.last()) + ups_of(
            prev,
            snaps.last().to_set(),
        )
    }
}

/// Law (edge correctness): for any sequence of duplicate-free key
/// snapshots, replaying the entire emitted KeyDown/KeyUp stream from an
/// empty set reconstructs the pressed-set of the latest snapshot exactly;
/// applied to each prefix of a run, this reconstructs the pressed-set at
/// every tick.
pub proof fn lemma_run_replay_reconstructs(snaps: Seq<Seq<u32>>)
    requires
        snaps.len() > 0,
        forall|t: int| 0 <= t < snaps.len() ==> nodup(#[trigger] snaps[t]),
    ensures
        nodup(run_pressed(snaps)),
        run_pressed(snaps).to_set() == snaps.last().to_set(),
        replay_keys(Set::empty(), run_key_events(snaps)) == snaps.last().to_set(),
    decreases snaps.len(),
{
    let prefix = snaps.drop_last();
    let cur = snaps.last();
    let prev = run_pressed(prefix);
    if snaps.len() == 1 {
        assert(prefix =~= Seq::<Seq<u32>>::empty());
        assert(prev =~= Seq::<u32>::empty());
        assert(prev.to_set() =~= Set::<u32>::empty());
        assert(replay_keys(Set::empty(), run_key_events(prefix)) == Set::<u32>::empty());
        assert(nodup(prev));
    } else {
        assert forall|t: int| 0 <= t < prefix.len() implies nodup(#[trigger] prefix[t]) by {
            assert(prefix[t] == snaps[t]);
        }
        lemma_run_replay_reconstructs(prefix);
        assert(replay_keys(Set::empty(), run_key_events(prefix)) == prev.to_set());
    }
    lemma_new_pressed_props(prev, cur);
    lemma_tick_key_events_replay(prev, cur);
    let d = downs_of(prev.to_set(), cur);
    let u = ups_of(prev, cur.to_set());
    lemma_replay_concat(Set::empty(), run_key_events(prefix), d + u);
    assert(run_key_events(prefix) + d + u =~= run_key_events(prefix) + (d + u));
}

/// Law (no duplicate down): a tick never emits a `KeyDown` for a code the
/// sampler already believes pressed.
pub proof fn lemma_no_duplicate_down(pressed: Set<u32>, codes: Seq<u32>, code: u32)
    requires
        pressed.contains(code),
    ensures
        !downs_of(pressed, codes).contains((Event::KeyDown { code })),
    decreases codes.len(),
{
    if codes.len() == 0 {
    } else {
        lemma_no_duplicate_down(pressed, codes.drop_last(), code);
    }
}

proof fn lemma_kept_of_props(pressed: Seq<u32>, keys: Set<u32>)
    requires
        nodup(pressed),
    ensures
        nodup(kept_of(pressed, keys)),
        forall|c: u32|
            kept_of(pressed, keys).contains(c) <==> pressed.contains(c) && keys.contains(c),
    decreases pressed.len(),
{
    if pressed.len() == 0 {
    } else {
        let rest = pressed.drop_last();
        assert(nodup(rest));
        lemma_kept_of_props(rest, keys);
        assert(!rest.contains(pressed.last()));
        assert(pressed =~= rest.push(pressed.last()));
        assert forall|c: u32|
            kept_of(pressed, keys).contains(c) <==> pressed.contains(c) && keys.contains(
                c,
            ) by {}
    }
}

proof fn lemma_news_of_props(pressed: Set<u32>, codes: Seq<u32>)
    requires
        nodup(codes),
    ensures
        nodup(news_of(pressed, codes)),
        forall|c: u32|
            news_of(pressed, codes).contains(c) <==> codes.contains(c) && !pressed.contains(c),
    decreases codes.len(),
{
    if codes.len() == 0 {
    } else {
        let rest = codes.drop_last();
        assert(nodup(rest));
        lemma_news_of_props(pressed, rest);
        assert(!rest.contains(codes.last()));
        assert(codes =~= rest.push(codes.last()));
        assert forall|c: u32|
            news_of(pressed, codes).contains(c) <==> codes.contains(c) && !pressed.contains(
                c,
            ) by {}
    }
}

proof fn lemma_new_pressed_props(p0: Seq<u32>, codes: Seq<u32>)
    requires
        nodup(p0),
        nodup(codes),
    ensures
        nodup(kept_of(p0, codes.to_set()) + news_of(p0.to_set(), codes)),
        (kept_of(p0, codes.to_set()) + news_of(p0.to_set(), codes)).to_set() == codes.to_set(),
{
    let kset = codes.to_set();
    let s0 = p0.to_set();
    let kp = kept_of(p0, kset);
    let np = news_of(s0, codes);
    lemma_kept_of_props(p0, kset);
    lemma_news_of_props(s0, codes);
    assert forall|a: int, b: int| 0 <= a < b < (kp + np).len() implies (kp + np)[a] != (kp
        + np)[b] by {
        if b < kp.len() {
        } else if a >= kp.len() {
        } else {
            let x = (kp + np)[a];
            let y = (kp + np)[b];
            assert(kp[a] == x);
            assert(np[b - kp.len()] == y);
            assert(kp.contains(x));
            assert(np.contains(y));
            if x == y {
                assert(p0.contains(x) == s0.contains(x));
                assert(false);
            }
        }
    }
    assert forall|c: u32| (kp + np).to_set().contains(c) <==> kset.contains(c) by {
        assert((kp + np).contains(c) <==> kp.contains(c) || np.contains(c));
        assert(p0.contains(c) <==> s0.contains(c));
        assert(codes.contains(c) <==> kset.contains(c));
    }
    assert((kp + np).to_set() =~= kset);
}

fn vec_contains(v: &Vec<u32>, code: u32) -> (r: bool)
    ensures
        r == v@.contains(code),
{
    let n = v.len();
    let mut i: usize = 0;
    while i < n
        invariant
            i <= n,
            n == v@.len(),
            forall|k: int| 0 <= k < i ==> v@[k] != code,
        decreases n - i,
    {
        if v[i] == code {
            return true;
        }
        i += 1;
    }
    false
}

/// Diffs polled input snapshots against its belief of the current state.
pub struct InputSampler {
    pressed: Vec<u32>,
    last_mouse: MousePos,
    emit_idle: bool,
}

impl InputSampler {
    /// The codes the sampler believes pressed, in the order it saw them go
    /// down.
    pub closed spec fn pressed_codes(&self) -> Seq<u32> {
        self.pressed@
    }

    /// The set of codes the sampler believes pressed.
    pub open spec fn pressed_set(&self) -> Set<u32> {
        self.pressed_codes().to_set()
    }

    /// The cursor position remembered from the previous tick.
    pub closed spec fn last_pos(&self) -> MousePos {
        self.last_mouse
    }

    /// Whether the sampler reports an idle event when the cursor did not
    /// move.
    pub closed spec fn idle_enabled(&self) -> bool {
        self.emit_idle
    }

    /// Well-formed: no code is believed pressed twice.
    pub open spec fn wf(&self) -> bool {
        nodup(self.pressed_codes())
    }

    /// A fresh sampler: nothing pressed, cursor at the origin.
    pub fn new(emit_idle: bool) -> (r: InputSampler)
        ensures
            r.wf(),
            r.pressed_codes() == Seq::<u32>::empty(),
            r.last_pos() == (MousePos { x: 0, y: 0 }),
            r.idle_enabled() == emit_idle,
    {
        InputSampler { pressed: Vec::new(), last_mouse: MousePos { x: 0, y: 0 }, emit_idle }
    }

    /// Whether the sampler currently believes `code` pressed.
    pub fn is_pressed(&self, code: u32) -> (r: bool)
        ensures
            r == self.pressed_set().contains(code),
    {
        vec_contains(&self.pressed, code)
    }

    /// How many keys the sampler currently believes pressed.
    pub fn pressed_count(&self) -> (n: usize)
        ensures
            n == self.pressed_codes().len(),
    {
        self.pressed.len()
    }

    /// The cursor position remembered from the previous tick.
    pub fn last_mouse(&self) -> (r: MousePos)
        ensures
            r == self.last_pos(),
    {
        self.last_mouse
    }

    /// One sampling tick: diff the polled snapshot against the previous
    /// belief and return the change events, mouse first, then rising
    /// edges, then falling edges.
    #[verifier::loop_isolation(false)]
    pub fn tick(&mut self, keys: &KeySet, mouse: MousePos) -> (events: Vec<Event>)
        requires
            old(self).wf(),
            keys.wf(),
        ensures
            final(self).wf(),
            final(self).idle_enabled() == old(self).idle_enabled(),
            final(self).last_pos() == mouse,
            final(self).pressed_codes() == kept_of(old(self).pressed_codes(), keys.as_set())
                + news_of(old(self).pressed_set(), keys.codes()),
            final(self).pressed_set() == keys.as_set(),
            events@ == mouse_events_of(old(self).last_pos(), mouse, old(self).idle_enabled())
                + downs_of(old(self).pressed_set(), keys.codes()) + ups_of(
                old(self).pressed_codes(),
                keys.as_set(),
            ),
    {
        let ghost p0: Seq<u32> = self.pressed@;
        let ghost s0: Set<u32> = self.pressed@.to_set();
        let ghost kset: Set<u32> = keys.as_set();
        let ghost mpart: Seq<Event> = mouse_events_of(self.last_mouse, mouse, self.emit_idle);

        let mut events: Vec<Event> = Vec::new();
        if mouse != self.last_mouse {
            events.push(Event::MouseMove { pos: mouse });
            self.last_mouse = mouse;
        } else if self.emit_idle {
            events.push(Event::MouseIdle { pos: mouse });
        }
        proof {
            assert(events@ =~= mpart);
        }

        let n = keys.len();
        let mut i: usize = 0;
        while i < n
            invariant
                i <= n,
                events@ == mpart + downs_of(s0, keys.codes().take(i as int)),
            decreases n - i,
        {
            let c = keys.code_at(i);
            if !vec_contains(&self.pressed, c) {
                events.push(Event::KeyDown { code: c });
            }
            proof {
                let t = keys.codes().take(i + 1);
                assert(t.drop_last() =~= keys.codes().take(i as int));
                assert(t.last() == keys.codes()[i as int]);
                assert(events@ =~= mpart + downs_of(s0, t));
            }
            i += 1;
        }
        proof {
            assert(keys.codes().take(n as int) =~= keys.codes());
        }

        let mut kept: Vec<u32> = Vec::new();
        let m = self.pressed.len();
        let mut j: usize = 0;
        while j < m
            invariant
                j <= m,
                events@ == mpart + downs_of(s0, keys.codes()) + ups_of(p0.take(j as int), kset),
                kept@ == kept_of(p0.take(j as int), kset),
            decreases m - j,
        {
            let c = self.pressed[j];
            if keys.contains(c) {
                kept.push(c);
            } else {
                events.push(Event::KeyUp { code: c });
            }
            proof {
                let t = p0.take(j + 1);
                assert(t.drop_last() =~= p0.take(j as int));
                assert(t.last() == p0[j as int]);
                assert(events@ =~= mpart + downs_of(s0, keys.codes()) + ups_of(t, kset));
                assert(kept@ =~= kept_of(t, kset));
            }
            j += 1;
        }
        proof {
            assert(p0.take(m as int) =~= p0);
        }

        let mut k: usize = 0;
        while k < n
            invariant
                k <= n,
                kept@ == kept_of(p0, kset) + news_of(s0, keys.codes().take(k as int)),
            decreases n - k,
        {
            let c = keys.code_at(k);
            if !vec_contains(&self.pressed, c) {
                kept.push(c);
            }
            proof {
                let t = keys.codes().take(k + 1);
                assert(t.drop_last() =~= keys.codes().take(k as int));
                assert(t.last() == keys.codes()[k as int]);
                assert(kept@ =~= kept_of(p0, kset) + news_of(s0, t));
            }
            k += 1;
        }
        self.pressed = kept;

        proof {
            lemma_new_pressed_props(p0, keys.codes());
        }
        events
    }
}

} // verus!
