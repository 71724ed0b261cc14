//! The buddy's view of one space: which space to show, and what the sensors
//! in it say (door open, water, fresh data, which temperatures count).
//! Temperatures themselves are measured in floating point and stay with the
//! caller; the summary names the sensors whose temperature counts.

use vstd::prelude::*;
use crate::puck::opt_view;
use crate::clock::{opt_chars, recorded_at_overflows, recorded_overflows, stale_at, is_stale_at};
use crate::text::{lower_chars, decimal, ascii_lower, ascii_lower_char, chars_of, lower_seq, push_decimal, push_str, seq_eq};
use crate::trusted::unix_now;
use crate::url::{percent_encode, pct_encoded};
use vstd::utf8::encode_utf8;

verus! {

/// One sensor card from ThermalTrace, as far as the summary reads it.
pub struct SensorCard {
    pub space: Option<String>,
    pub kind: Option<String>,
    pub value_bool: Option<bool>,
    pub value_text: Option<String>,
    pub recorded_at: Option<String>,
    /// The card carries a temperature (`temp.f`, or else `value_num`).
    pub has_temperature: bool,
}

/// What a sensor card says, as plain values.
pub struct SensorView {
    pub space: Option<Seq<char>>,
    pub kind: Option<Seq<char>>,
    pub value_bool: Option<bool>,
    pub value_text: Option<Seq<char>>,
    pub recorded_at: Option<Seq<char>>,
    pub has_temperature: bool,
}

impl View for SensorCard {
    type V = SensorView;

    open spec fn view(&self) -> SensorView {
        SensorView {
            space: opt_view(self.space),
            kind: opt_view(self.kind),
            value_bool: self.value_bool,
            value_text: opt_view(self.value_text),
            recorded_at: opt_view(self.recorded_at),
            has_temperature: self.has_temperature,
        }
    }
}

/// The views of a list of cards.
pub open spec fn cards(v: Seq<SensorCard>) -> Seq<SensorView> {
    v.map_values(|c: SensorCard| c@)
}

/// `str::eq_ignore_ascii_case`: equal once ASCII letters are lower-cased.
pub open spec fn eq_ignore_case(a: Seq<char>, b: Seq<char>) -> bool {
    lower_seq(a) == lower_seq(b)
}

/// How many cards name exactly this space.
pub open spec fn space_count(ss: Seq<SensorView>, name: Seq<char>) -> nat
    decreases ss.len(),
{
    if ss.len() == 0 {
        0
    } else {
        space_count(ss.drop_last(), name) + if ss.last().space == Some(name) {
            1nat
        } else {
            0nat
        }
    }
}

/// Some card names this space, and no space is named by more cards.
pub open spec fn is_busiest(ss: Seq<SensorView>, name: Seq<char>) -> bool {
    &&& exists|i: int| 0 <= i < ss.len() && ss[i].space == Some(name)
    &&& forall|i: int|
        0 <= i < ss.len() && (#[trigger] ss[i].space) is Some ==> space_count(ss, ss[i].space->0)
            <= space_count(ss, name)
}

/// The space to show: the one asked for, else the first space of the
/// account, else the space named by most cards (any of them on a tie), else
/// `Garage`.
pub open spec fn space_choice_ok(
    requested: Option<Seq<char>>,
    spaces: Seq<Seq<char>>,
    ss: Seq<SensorView>,
    name: Seq<char>,
) -> bool {
    match requested {
        Some(r) => name == r,
        None => if spaces.len() > 0 {
            name == spaces[0]
        } else if exists|i: int| 0 <= i < ss.len() && (#[trigger] ss[i].space) is Some {
            is_busiest(ss, name)
        } else {
            name == "Garage"@
        },
    }
}

/// A card belongs to the shown space: its space matches without regard to
/// ASCII case; a card without a space belongs when the account has at most
/// one space.
pub open spec fn in_space(s: SensorView, name: Seq<char>, n_spaces: nat) -> bool {
    match s.space {
        Some(sp) => eq_ignore_case(sp, name),
        None => n_spaces <= 1,
    }
}

/// The card's kind, empty when it has none.
pub open spec fn kind_of(s: SensorView) -> Seq<char> {
    match s.kind {
        Some(k) => k,
        None => Seq::empty(),
    }
}

/// A door card that reports the door open.
pub open spec fn door_signal(s: SensorView) -> bool {
    kind_of(s) == "door"@ && (s.value_bool == Some(true) || match s.value_text {
        Some(t) => eq_ignore_case(t, "open"@),
        None => false,
    })
}

/// Text that a flood or leak card uses for water.
pub open spec fn wet_word(t: Seq<char>) -> bool {
    let l = lower_seq(t);
    l == "wet"@ || l == "leak"@ || l == "true"@ || l == "1"@
}

/// A flood or leak card that reports water.
pub open spec fn wet_signal(s: SensorView) -> bool {
    (kind_of(s) == "flood"@ || kind_of(s) == "leak"@) && (s.value_bool == Some(true)
        || match s.value_text {
        Some(t) => wet_word(t),
        None => false,
    })
}

/// A temperature card that carries a temperature.
pub open spec fn temp_signal(s: SensorView) -> bool {
    kind_of(s) == "temperature"@ && s.has_temperature
}

/// The indices, in order, of the first `n` cards that are in the space and
/// whose temperature counts.
pub open spec fn temp_indices(ss: Seq<SensorView>, name: Seq<char>, n_spaces: nat, n: int) -> Seq<usize>
    decreases n,
{
    if n <= 0 {
        Seq::empty()
    } else {
        let p = temp_indices(ss, name, n_spaces, n - 1);
        if in_space(ss[n - 1], name, n_spaces) && temp_signal(ss[n - 1]) {
            p.push((n - 1) as usize)
        } else {
            p
        }
    }
}

/// What the buddy shows about one space.
pub struct BuddySummary {
    pub space_name: String,
    pub door_open: bool,
    pub wet_contact: bool,
    /// Some card in the space has a reading that is not stale.
    pub any_fresh: bool,
    /// The cards (by index) whose temperatures count; the shown temperature
    /// is the lowest of them.
    pub temperature_cards: Vec<usize>,
    /// Fresh data, or at least one temperature.
    pub feed_healthy: bool,
}

/// The summary is right for these cards, with the clock reading `now`.
pub open spec fn summary_ok(
    r: BuddySummary,
    requested: Option<Seq<char>>,
    spaces: Seq<Seq<char>>,
    ss: Seq<SensorView>,
    now: Option<u64>,
) -> bool {
    let name = r.space_name@;
    let n = spaces.len();
    &&& space_choice_ok(requested, spaces, ss, name)
    &&& r.door_open == exists|i: int|
        0 <= i < ss.len() && in_space(#[trigger] ss[i], name, n) && door_signal(ss[i])
    &&& r.wet_contact == exists|i: int|
        0 <= i < ss.len() && in_space(#[trigger] ss[i], name, n) && wet_signal(ss[i])
    &&& r.any_fresh == exists|i: int|
        0 <= i < ss.len() && in_space(#[trigger] ss[i], name, n) && !stale_at(
            ss[i].recorded_at,
            now,
        )
    &&& r.temperature_cards@ == temp_indices(ss, name, n, ss.len() as int)
    &&& r.feed_healthy == (r.any_fresh || r.temperature_cards@.len() > 0)
}

/// Some card in the shown space has a timestamp whose arithmetic leaves its
/// types (where plain Rust arithmetic panics).
pub open spec fn space_overflows(ss: Seq<SensorView>, name: Seq<char>, n_spaces: nat) -> bool {
    exists|i: int|
        0 <= i < ss.len() && in_space(#[trigger] ss[i], name, n_spaces) && match ss[i].recorded_at {
            Some(t) => recorded_overflows(t),
            None => false,
        }
}

/// The views of a list of strings.
pub open spec fn strs(v: Seq<String>) -> Seq<Seq<char>> {
    v.map_values(|s: String| s@)
}

/// Some of the first `k` cards is in the space and reports the door open.
pub open spec fn door_upto(ss: Seq<SensorView>, name: Seq<char>, n: nat, k: int) -> bool {
    exists|i: int| 0 <= i < k && in_space(#[trigger] ss[i], name, n) && door_signal(ss[i])
}

/// Some of the first `k` cards is in the space and reports water.
pub open spec fn wet_upto(ss: Seq<SensorView>, name: Seq<char>, n: nat, k: int) -> bool {
    exists|i: int| 0 <= i < k && in_space(#[trigger] ss[i], name, n) && wet_signal(ss[i])
}

/// Some of the first `k` cards is in the space and not stale.
pub open spec fn fresh_upto(ss: Seq<SensorView>, name: Seq<char>, n: nat, k: int, now: Option<u64>) -> bool {
    exists|i: int| 0 <= i < k && in_space(#[trigger] ss[i], name, n) && !stale_at(ss[i].recorded_at, now)
}

fn eq_ignore_case_chars(a: &Vec<char>, b: &Vec<char>) -> (r: bool)
    ensures
        r == eq_ignore_case(a@, b@),
{
    if a.len() != b.len() {
        assert(lower_seq(a@).len() != lower_seq(b@).len());
        return false;
    }
    let n = a.len();
    for i in 0..n
        invariant
            n == a.len(),
            n == b.len(),
            forall|j: int| 0 <= j < i ==> ascii_lower(a@[j]) == ascii_lower(b@[j]),
    {
        if ascii_lower_char(a[i]) != ascii_lower_char(b[i]) {
            assert(lower_seq(a@)[i as int] != lower_seq(b@)[i as int]);
            return false;
        }
    }
    assert(lower_seq(a@) =~= lower_seq(b@));
    true
}

fn opt_str(o: &Option<String>) -> (r: Option<&str>)
    ensures
        opt_chars(r) == opt_view(*o),
{
    match o {
        Some(s) => Some(s.as_str()),
        None => None,
    }
}

fn count_space(sensors: &Vec<SensorCard>, name: &Vec<char>) -> (c: usize)
    ensures
        c == space_count(cards(sensors@), name@),
{
    let n = sensors.len();
    let ghost ss = cards(sensors@);
    let mut c: usize = 0;
    for i in 0..n
        invariant
            n == sensors.len(),
            ss == cards(sensors@),
            c == space_count(ss.take(i as int), name@),
            c <= i,
    {
        proof {
            assert(ss.take(i + 1).drop_last() =~= ss.take(i as int));
            assert(ss.take(i + 1).last() == sensors@[i as int]@);
        }
        match &sensors[i].space {
            Some(sp) => {
                if seq_eq(&chars_of(sp.as_str()), name) {
                    c = c + 1;
                }
            },
            None => {},
        }
    }
    proof {
        assert(ss.take(n as int) =~= ss);
    }
    c
}

fn busiest_space(sensors: &Vec<SensorCard>) -> (r: Option<String>)
    ensures
        match r {
            Some(name) => is_busiest(cards(sensors@), name@),
            None => !exists|i: int| 0 <= i < sensors@.len() && (#[trigger] cards(sensors@)[i].space) is Some,
        },
{
    let n = sensors.len();
    let ghost ss = cards(sensors@);
    let mut best: Option<String> = None;
    let mut best_count: usize = 0;
    for i in 0..n
        invariant
            n == sensors.len(),
            ss == cards(sensors@),
            ss.len() == n,
            match best {
                Some(b) => {
                    &&& best_count == space_count(ss, b@)
                    &&& exists|j: int| 0 <= j < i && ss[j].space == Some(b@)
                    &&& forall|j: int|
                        0 <= j < i && (#[trigger] ss[j].space) is Some ==> space_count(
                            ss,
                            ss[j].space->0,
                        ) <= best_count
                },
                None => forall|j: int| 0 <= j < i ==> (#[trigger] ss[j].space) is None,
            },
    {
        assert(ss[i as int] == sensors@[i as int]@);
        match &sensors[i].space {
            Some(sp) => {
                let c = count_space(sensors, &chars_of(sp.as_str()));
                let take = match &best {
                    Some(_) => c > best_count,
                    None => true,
                };
                if take {
                    best = Some(sp.clone());
                    best_count = c;
                }
            },
            None => {},
        }
    }
    best
}

/// The path of the readings call, for one space or for all.
pub fn readings_path(space: Option<&str>) -> (r: String)
    ensures
        r@ == "/api/home/readings?save=0"@ + match space {
            Some(s) => "&space="@ + pct_encoded(encode_utf8(s@)),
            None => Seq::<char>::empty(),
        },
{
    let mut out = String::new();
    push_str(&mut out, "/api/home/readings?save=0");
    match space {
        Some(s) => {
            push_str(&mut out, "&space=");
            let e = percent_encode(s);
            push_str(&mut out, e.as_str());
        },
        None => {},
    }
    proof {
        assert(out@ =~= "/api/home/readings?save=0"@ + match space {
            Some(s) => "&space="@ + pct_encoded(encode_utf8(s@)),
            None => Seq::<char>::empty(),
        });
    }
    out
}

/// Sums up the cards of one space with the clock reading `now`: picks the
/// space (see `space_choice_ok`), then reads the cards in it. `None` when a
/// card in that space has a timestamp whose arithmetic leaves its types.
pub fn summarize_space(
    requested: Option<&str>,
    spaces: &Vec<String>,
    sensors: &Vec<SensorCard>,
    now: Option<u64>,
) -> (r: Option<BuddySummary>)
    ensures
        summary_result_ok(r, opt_chars(requested), strs(spaces@), cards(sensors@), now),
{
    let ghost ss = cards(sensors@);
    let ghost sp = strs(spaces@);
    let name: String = match requested {
        Some(r) => String::from_str(r),
        None => {
            if spaces.len() > 0 {
                assert(sp[0] == spaces@[0]@);
                spaces[0].clone()
            } else {
                match busiest_space(sensors) {
                    Some(b) => b,
                    None => String::from_str("Garage"),
                }
            }
        },
    };
    assert(space_choice_ok(opt_chars(requested), sp, ss, name@));
    let name_chars = chars_of(name.as_str());
    let n_spaces = spaces.len();
    let n = sensors.len();
    let mut door = false;
    let mut wet = false;
    let mut fresh = false;
    let mut temps: Vec<usize> = Vec::new();
    for i in 0..n
        invariant
            n == sensors.len(),
            ss == cards(sensors@),
            ss.len() == n,
            n_spaces == spaces@.len(),
            name_chars@ == name@,
            space_choice_ok(opt_chars(requested), strs(spaces@), ss, name@),
            door == door_upto(ss, name@, n_spaces as nat, i as int),
            wet == wet_upto(ss, name@, n_spaces as nat, i as int),
            fresh == fresh_upto(ss, name@, n_spaces as nat, i as int, now),
            temps@ == temp_indices(ss, name@, n_spaces as nat, i as int),
            !(exists|j: int| 0 <= j < i && in_space(#[trigger] ss[j], name@, n_spaces as nat) && match ss[j].recorded_at {
                Some(t) => recorded_overflows(t),
                None => false,
            }),
    {
        let card = &sensors[i];
        let ghost wet0 = wet;
        let ghost v = ss[i as int];
        assert(v == card@);
        let inside = match &card.space {
            Some(s) => eq_ignore_case_chars(&chars_of(s.as_str()), &name_chars),
            None => n_spaces <= 1,
        };
        assert(inside == in_space(v, name@, n_spaces as nat));
        if inside {
            match &card.recorded_at {
                Some(t) => {
                    if recorded_at_overflows(t.as_str()) {
                        assert(space_overflows(ss, name@, n_spaces as nat));
                        return None;
                    }
                },
                None => {},
            }
            let stale = is_stale_at(opt_str(&card.recorded_at), now);
            if !stale {
                fresh = true;
            }
            let kind = match &card.kind {
                Some(k) => chars_of(k.as_str()),
                None => Vec::new(),
            };
            assert(kind@ == kind_of(v));
            proof {
                reveal_strlit("temperature");
                reveal_strlit("door");
                reveal_strlit("flood");
                reveal_strlit("leak");
                assert("door"@ != "leak"@) by {
                    assert("door"@[0] != "leak"@[0]);
                }
            }
            if seq_eq(&kind, &chars_of("temperature")) {
                if card.has_temperature {
                    temps.push(i);
                }
                assert(!wet_signal(v));
            } else if seq_eq(&kind, &chars_of("door")) {
                let text_open = match &card.value_text {
                    Some(t) => eq_ignore_case_chars(&chars_of(t.as_str()), &chars_of("open")),
                    None => false,
                };
                if matches!(card.value_bool, Some(true)) || text_open {
                    door = true;
                }
                assert(!wet_signal(v));
            } else if seq_eq(&kind, &chars_of("flood")) || seq_eq(&kind, &chars_of("leak")) {
                let text_wet = match &card.value_text {
                    Some(t) => {
                        let l = lower_chars(&chars_of(t.as_str()));
                        seq_eq(&l, &chars_of("wet")) || seq_eq(&l, &chars_of("leak")) || seq_eq(
                            &l,
                            &chars_of("true"),
                        ) || seq_eq(&l, &chars_of("1"))
                    },
                    None => false,
                };
                proof {
                    reveal_strlit("wet");
                    reveal_strlit("true");
                    reveal_strlit("1");
                }
                assert(text_wet == match v.value_text {
                    Some(t) => wet_word(t),
                    None => false,
                });
                if matches!(card.value_bool, Some(true)) || text_wet {
                    wet = true;
                }
                assert(wet == (wet0 || wet_signal(v)));
            }
        }
        proof {
            reveal_strlit("temperature");
            reveal_strlit("door");
            reveal_strlit("flood");
            reveal_strlit("leak");
            if door_signal(v) && inside {
                assert(door_upto(ss, name@, n_spaces as nat, i + 1));
            }
            reveal_strlit("wet");
            reveal_strlit("true");
            reveal_strlit("1");
            reveal_strlit("open");
            assert(wet == (wet0 || (inside && wet_signal(v))));
            if wet_signal(v) && inside {
                assert(wet_upto(ss, name@, n_spaces as nat, i + 1));
            } else {
                if wet_upto(ss, name@, n_spaces as nat, i + 1) {
                    let j = choose|j: int|
                        0 <= j < i + 1 && in_space(#[trigger] ss[j], name@, n_spaces as nat)
                            && wet_signal(ss[j]);
                    assert(j != i);
                    assert(wet_upto(ss, name@, n_spaces as nat, i as int));
                }
            }
            if inside && !stale_at(v.recorded_at, now) {
                assert(fresh_upto(ss, name@, n_spaces as nat, i + 1, now));
            }
        }
    }
    let healthy = fresh || temps.len() > 0;
    Some(
        BuddySummary {
            space_name: name,
            door_open: door,
            wet_contact: wet,
            any_fresh: fresh,
            temperature_cards: temps,
            feed_healthy: healthy,
        },
    )
}

/// What `summarize_space` returns: a right summary whose space has no
/// overflowing timestamp, or `None` when the chosen space has one.
pub open spec fn summary_result_ok(
    r: Option<BuddySummary>,
    requested: Option<Seq<char>>,
    spaces: Seq<Seq<char>>,
    ss: Seq<SensorView>,
    now: Option<u64>,
) -> bool {
    match r {
        Some(sum) => summary_ok(sum, requested, spaces, ss, now) && !space_overflows(
            ss,
            sum.space_name@,
            spaces.len(),
        ),
        None => exists|name: Seq<char>|
            space_choice_ok(requested, spaces, ss, name) && #[trigger] space_overflows(
                ss,
                name,
                spaces.len(),
            ),
    }
}

/// `summarize_space` by the system clock.
pub fn summarize_space_now(requested: Option<&str>, spaces: &Vec<String>, sensors: &Vec<SensorCard>) -> (r: Option<BuddySummary>)
    ensures
        exists|now: Option<u64>|
            #[trigger] summary_result_ok(r, opt_chars(requested), strs(spaces@), cards(sensors@), now),
{
    let now = unix_now();
    let r = summarize_space(requested, spaces, sensors, now);
    assert(summary_result_ok(r, opt_chars(requested), strs(spaces@), cards(sensors@), now));
    r
}

/// What the clock stamp reads: seconds since 1970, empty before 1970.
pub open spec fn clock_stamp(now: Option<u64>) -> Seq<char> {
    match now {
        Some(n) => decimal(n as nat),
        None => Seq::empty(),
    }
}

/// The clock stamp for a clock reading `now` (seconds since 1970, `None`
/// before 1970): the seconds in decimal, or empty.
pub fn clock_fallback(now: Option<u64>) -> (r: String)
    ensures
        r@ == clock_stamp(now),
{
    let mut out = String::new();
    match now {
        Some(n) => {
            push_decimal(&mut out, n as u128);
        },
        None => {},
    }
    proof {
        assert(out@ =~= clock_stamp(now));
    }
    out
}

/// The `last updated` stamp: the readings' `updatedAt`, else their
/// `updated_at`, else the clock's seconds since 1970 (empty for a clock
/// before 1970).
pub fn last_updated(camel: Option<String>, snake: Option<String>) -> (r: String)
    ensures
        camel is Some ==> r@ == camel->0@,
        camel is None && snake is Some ==> r@ == snake->0@,
        camel is None && snake is None ==> exists|now: Option<u64>| r@ == #[trigger] clock_stamp(now),
{
    match camel {
        Some(c) => c,
        None => match snake {
            Some(s) => s,
            None => clock_fallback(unix_now()),
        },
    }
}

} // verus!
