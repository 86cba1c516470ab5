//! What the player asked for during one frame, and how key presses become such a request.

use vstd::prelude::*;
use std::collections::HashMap;

verus! {

broadcast use vstd::std_specs::hash::group_hash_axioms;

/// A turn of the active piece.
#[derive(Copy, Clone, Debug, PartialEq, Eq, Structural)]
pub enum Rotation {
    Clockwise,
    Counterclockwise,
    Not,
}

/// Everything the player asked for since the last frame.
#[derive(Copy, Clone, Debug)]
pub struct InputPackage {
    pub move_x: i16,
    pub rotate: Rotation,
    pub hard_drop: bool,
    pub soft_drop: bool,
    pub store: bool,
}

impl InputPackage {
    /// A request for nothing: no move, no turn, no drop, no storing.
    pub fn new() -> (p: InputPackage)
        ensures
            p.move_x == 0,
            p.rotate == Rotation::Not,
            !p.hard_drop,
            !p.soft_drop,
            !p.store,
    {
        InputPackage {
            move_x: 0,
            rotate: Rotation::Not,
            hard_drop: false,
            soft_drop: false,
            store: false,
        }
    }
}

/// A key the game listens to (every other key is `Other`).
#[derive(Copy, Clone, Debug, PartialEq, Eq, Structural)]
pub enum Key {
    Left,
    Right,
    Up,
    Down,
    Z,
    LControl,
    Space,
    C,
    LShift,
    RShift,
    Other,
}

/// The time, in microseconds, that must pass between two presses of a key for the
/// second one to count.
pub const COOLDOWN_MICROS: u64 = 5000;

/// The slot under which a timed key's last press is logged; none for `Down` and
/// `Other`, which are not timed.
pub open spec fn key_slot(k: Key) -> Option<u8> {
    match k {
        Key::Left => Some(0u8),
        Key::Right => Some(1u8),
        Key::Up => Some(2u8),
        Key::Z => Some(3u8),
        Key::LControl => Some(4u8),
        Key::Space => Some(5u8),
        Key::C => Some(6u8),
        Key::LShift => Some(7u8),
        Key::RShift => Some(8u8),
        _ => None,
    }
}

/// When each timed key was last seen pressed, in microseconds, by the key's slot.
pub struct PressLog {
    times: HashMap<u8, u64>,
}

impl View for PressLog {
    type V = Map<u8, u64>;

    closed spec fn view(&self) -> Map<u8, u64> {
        self.times@
    }
}

impl PressLog {
    /// A log in which every timed key was last pressed at `now`.
    pub fn new(now: u64) -> (log: PressLog)
        ensures
            log@ == Map::new(|i: u8| i < 9, |i: u8| now),
    {
        let mut times: HashMap<u8, u64> = HashMap::new();
        let mut i: u8 = 0;
        while i < 9
            invariant
                i <= 9,
                times@ == Map::new(|j: u8| j < i, |j: u8| now),
            decreases 9 - i,
        {
            times.insert(i, now);
            i = i + 1;
            proof {
                assert(times@ =~= Map::new(|j: u8| j < i, |j: u8| now));
            }
        }
        PressLog { times }
    }

    /// When the key logged under `slot` was last pressed, if it is logged.
    pub fn last_pressed(&self, slot: u8) -> (t: Option<u64>)
        ensures
            t == if self@.contains_key(slot) {
                Some(self@[slot])
            } else {
                None::<u64>
            },
    {
        match self.times.get(&slot) {
            Some(t) => Some(*t),
            None => None,
        }
    }
}

/// What a counted press of a timed key asks for.
pub open spec fn key_request(pkg: InputPackage, k: Key) -> InputPackage {
    match k {
        Key::Left => InputPackage { move_x: -1i16, ..pkg },
        Key::Right => InputPackage { move_x: 1i16, ..pkg },
        Key::Up => InputPackage { rotate: Rotation::Clockwise, ..pkg },
        Key::Z | Key::LControl => InputPackage { rotate: Rotation::Counterclockwise, ..pkg },
        Key::Space => InputPackage { hard_drop: true, ..pkg },
        Key::C | Key::LShift | Key::RShift => InputPackage { store: true, ..pkg },
        _ => pkg,
    }
}

/// One held key at time `now`: `Down` asks for a soft drop; a timed key that the
/// log holds is logged as pressed now, and counts when at least the cooldown has
/// passed since it was last pressed; other keys do nothing.
pub open spec fn press(pkg: InputPackage, times: Map<u8, u64>, k: Key, now: u64) -> (InputPackage, Map<u8, u64>) {
    if k == Key::Down {
        (InputPackage { soft_drop: true, ..pkg }, times)
    } else {
        match key_slot(k) {
            None => (pkg, times),
            Some(i) => if !times.contains_key(i) {
                (pkg, times)
            } else {
                let last = times[i];
                let since = if now >= last { now - last } else { 0 };
                let t2 = times.insert(i, now);
                if since < COOLDOWN_MICROS {
                    (pkg, t2)
                } else {
                    (key_request(pkg, k), t2)
                }
            },
        }
    }
}

/// The held keys `keys`, one after the other, at time `now`.
pub open spec fn presses(pkg: InputPackage, times: Map<u8, u64>, keys: Seq<Key>, now: u64) -> (InputPackage, Map<u8, u64>)
    decreases keys.len(),
{
    if keys.len() == 0 {
        (pkg, times)
    } else {
        let r = press(pkg, times, keys[0], now);
        presses(r.0, r.1, keys.drop_first(), now)
    }
}

/// The request after reading the held keys: a hard drop cancels any sideways move.
pub open spec fn read_request(pkg: InputPackage, times: Map<u8, u64>, keys: Seq<Key>, now: u64) -> InputPackage {
    let r = presses(pkg, times, keys, now).0;
    if r.hard_drop {
        InputPackage { move_x: 0i16, ..r }
    } else {
        r
    }
}

/// The keys of `keys` other than `k`, in order.
pub open spec fn without(keys: Seq<Key>, k: Key) -> Seq<Key>
    decreases keys.len(),
{
    if keys.len() == 0 {
        seq![]
    } else if keys[0] == k {
        without(keys.drop_first(), k)
    } else {
        seq![keys[0]] + without(keys.drop_first(), k)
    }
}

/// After a reading of the held keys at `now`, the log holds the same slots; a logged
/// timed key among the keys is logged as pressed at `now`, and one not among them
/// keeps its time.
pub proof fn lemma_reading_logs(pkg: InputPackage, times: Map<u8, u64>, keys: Seq<Key>, now: u64, k: Key)
    requires
        key_slot(k) is Some,
        times.contains_key(key_slot(k)->0),
    ensures
        presses(pkg, times, keys, now).1.dom() == times.dom(),
        presses(pkg, times, keys, now).1[key_slot(k)->0] == if keys.contains(k) {
            now
        } else {
            times[key_slot(k)->0]
        },
    decreases keys.len(),
{
    if keys.len() > 0 {
        let q = keys[0];
        let r = press(pkg, times, q, now);
        assert(r.1.dom() =~= times.dom());
        lemma_reading_logs(r.0, r.1, keys.drop_first(), now, k);
        if keys.contains(k) && q != k {
            let j = choose|j: int| 0 <= j < keys.len() && keys[j] == k;
            assert(keys.drop_first()[j - 1] == k);
        }
        if keys.drop_first().contains(k) {
            let j = choose|j: int| 0 <= j < keys.drop_first().len() && keys.drop_first()[j] == k;
            assert(keys[j + 1] == k);
        }
        if q == k {
            assert(keys[0] == k);
        }
    }
}

/// Within the cooldown of a logged timed key `k`, reading `k` changes nothing in the
/// request: reading the keys gives the same request as reading them without `k`,
/// from logs with the same slots that differ at most in `k`'s slot.
pub proof fn lemma_recent_key_inert(
    pkg: InputPackage,
    ta: Map<u8, u64>,
    tb: Map<u8, u64>,
    keys: Seq<Key>,
    now: u64,
    k: Key,
)
    requires
        key_slot(k) is Some,
        ta.contains_key(key_slot(k)->0),
        ta.dom() == tb.dom(),
        forall|j: u8| #[trigger] ta.contains_key(j) && j != key_slot(k)->0 ==> ta[j] == tb[j],
        now >= ta[key_slot(k)->0] ==> now - ta[key_slot(k)->0] < COOLDOWN_MICROS,
    ensures
        presses(pkg, ta, keys, now).0 == presses(pkg, tb, without(keys, k), now).0,
    decreases keys.len(),
{
    let slot = key_slot(k)->0;
    if keys.len() > 0 {
        let q = keys[0];
        let ra = press(pkg, ta, q, now);
        if q == k {
            assert(ra.1.dom() =~= tb.dom());
            lemma_recent_key_inert(ra.0, ra.1, tb, keys.drop_first(), now, k);
        } else {
            let rb = press(pkg, tb, q, now);
            assert(ra.0 == rb.0);
            assert(ra.1.dom() =~= rb.1.dom());
            let w = without(keys.drop_first(), k);
            assert((seq![q] + w)[0] == q);
            assert((seq![q] + w).drop_first() =~= w);
            lemma_recent_key_inert(ra.0, ra.1, rb.1, keys.drop_first(), now, k);
        }
    }
}

/// Reading `keys` and then one more key `x` is reading `keys`, then pressing `x`.
pub proof fn lemma_presses_push(pkg: InputPackage, times: Map<u8, u64>, keys: Seq<Key>, x: Key, now: u64)
    ensures
        ({
            let r = presses(pkg, times, keys, now);
            presses(pkg, times, keys.push(x), now) == press(r.0, r.1, x, now)
        }),
    decreases keys.len(),
{
    let ks = keys.push(x);
    if keys.len() == 0 {
        let r = press(pkg, times, x, now);
        assert(ks[0] == x);
        assert(ks.drop_first() =~= Seq::<Key>::empty());
        assert(presses(r.0, r.1, ks.drop_first(), now) == r);
    } else {
        let r = press(pkg, times, keys[0], now);
        lemma_presses_push(r.0, r.1, keys.drop_first(), x, now);
        assert(ks[0] == keys[0]);
        assert(ks.drop_first() =~= keys.drop_first().push(x));
    }
}

/// Past the cooldown of a logged timed key `k`, reading `k` after the other held
/// keys makes its request: left and right move, up turns clockwise, Z and left
/// Control turn counterclockwise, space drops, C and the shifts store.
pub proof fn lemma_key_acts_after_cooldown(pkg: InputPackage, times: Map<u8, u64>, keys: Seq<Key>, now: u64, k: Key)
    requires
        key_slot(k) is Some,
        times.contains_key(key_slot(k)->0),
        !keys.contains(k),
        now >= times[key_slot(k)->0],
        now - times[key_slot(k)->0] >= COOLDOWN_MICROS,
    ensures
        presses(pkg, times, keys.push(k), now).0 == key_request(presses(pkg, times, keys, now).0, k),
        presses(pkg, times, keys.push(k), now).1[key_slot(k)->0] == now,
{
    lemma_presses_push(pkg, times, keys, k, now);
    lemma_reading_logs(pkg, times, keys, now, k);
}

/// A timed key held across two readings less than the cooldown apart acts at most
/// once: in the second reading it changes nothing.
pub proof fn lemma_key_acts_once_per_cooldown(
    pkg1: InputPackage,
    times: Map<u8, u64>,
    keys1: Seq<Key>,
    t1: u64,
    pkg2: InputPackage,
    keys2: Seq<Key>,
    t2: u64,
    k: Key,
)
    requires
        key_slot(k) is Some,
        times.contains_key(key_slot(k)->0),
        keys1.contains(k),
        t1 <= t2 < t1 + COOLDOWN_MICROS,
    ensures
        ({
            let log = presses(pkg1, times, keys1, t1).1;
            read_request(pkg2, log, keys2, t2) == read_request(pkg2, log, without(keys2, k), t2)
        }),
{
    let log = presses(pkg1, times, keys1, t1).1;
    lemma_reading_logs(pkg1, times, keys1, t1, k);
    lemma_recent_key_inert(pkg2, log, log, keys2, t2, k);
}

/// Adds the keys held at time `now` (in microseconds) to the request `package`:
/// `Down` asks for a soft drop; a timed key that the log holds counts when the
/// cooldown has passed since it was last pressed (left and right move, up turns
/// clockwise, Z and left Control turn counterclockwise, space drops, C and the
/// shifts store), and is logged as pressed now. A hard drop cancels any sideways
/// move.
pub fn apply_keys(package: &InputPackage, keys: &Vec<Key>, log: &mut PressLog, now: u64) -> (p: InputPackage)
    ensures
        p == read_request(*package, old(log)@, keys@, now),
        final(log)@ == presses(*package, old(log)@, keys@, now).1,
{
    let ghost target = presses(*package, log@, keys@, now);
    let mut pkg = *package;
    let mut i: usize = 0;
    assert(keys@.skip(0) =~= keys@);
    while i < keys.len()
        invariant
            i <= keys@.len(),
            presses(pkg, log@, keys@.skip(i as int), now) == target,
        decreases keys@.len() - i,
    {
        let ghost rest = keys@.skip(i as int);
        assert(rest.drop_first() =~= keys@.skip(i as int + 1));
        let key = keys[i];
        if key == Key::Down {
            pkg.soft_drop = true;
        } else {
            let slot: Option<u8> = match key {
                Key::Left => Some(0),
                Key::Right => Some(1),
                Key::Up => Some(2),
                Key::Z => Some(3),
                Key::LControl => Some(4),
                Key::Space => Some(5),
                Key::C => Some(6),
                Key::LShift => Some(7),
                Key::RShift => Some(8),
                _ => None,
            };
            if let Some(s) = slot {
                let logged: Option<u64> = match log.times.get(&s) {
                    Some(t) => Some(*t),
                    None => None,
                };
                if let Some(last) = logged {
                    let since = if now >= last { now - last } else { 0 };
                    log.times.insert(s, now);
                    if since >= COOLDOWN_MICROS {
                        match key {
                            Key::Left => pkg.move_x = -1,
                            Key::Right => pkg.move_x = 1,
                            Key::Up => pkg.rotate = Rotation::Clockwise,
                            Key::Z | Key::LControl => pkg.rotate = Rotation::Counterclockwise,
                            Key::Space => pkg.hard_drop = true,
                            _ => pkg.store = true,
                        }
                    }
                }
            }
        }
        i = i + 1;
    }
    assert(keys@.skip(keys@.len() as int) =~= Seq::<Key>::empty());
    if pkg.hard_drop {
        pkg.move_x = 0;
    }
    pkg
}

/// The answer to "play again?", already trimmed and upper-cased: `Y` is yes, `N` is
/// no, anything else is no answer.
pub fn yes_no(answer: &str) -> (r: Option<bool>)
    ensures
        r == (if answer@ == seq!['Y'] {
            Some(true)
        } else if answer@ == seq!['N'] {
            Some(false)
        } else {
            None::<bool>
        }),
{
    if answer.unicode_len() != 1 {
        return None;
    }
    let c = answer.get_char(0);
    if c == 'Y' {
        assert(answer@ =~= seq!['Y']);
        Some(true)
    } else if c == 'N' {
        assert(answer@ =~= seq!['N']);
        Some(false)
    } else {
        None
    }
}

} // verus!
