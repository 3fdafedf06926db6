//! Counting flags along a street of houses. A house is painted red (`R`),
//! white (`W`) or green (`G`), or not yet painted (`X`). Walking the street
//! from its first house, four tallies are kept; the last of them, the tally of
//! whole flags, is the count.

use vstd::prelude::*;

verus! {

/// Why a street has no count.
#[derive(Copy, Clone, Debug, PartialEq, Eq)]
pub enum FlagsError {
    /// A house is marked with a character that is none of `R`, `W`, `G`, `X`.
    InvalidHouse(char),
    /// A tally has outgrown 32 bits.
    TooMany,
}

/// The four tallies: starts of a flag, flags that lack their green, whole
/// flags, and unpainted houses.
pub struct Tally {
    pub r: nat,
    pub rw: nat,
    pub rwg: nat,
    pub x: nat,
}

/// Three to the power `x`.
pub open spec fn pow3(x: nat) -> nat
    decreases x,
{
    if x == 0 {
        1
    } else {
        3 * pow3((x - 1) as nat)
    }
}

/// The character marks a house.
pub open spec fn is_house(house: char) -> bool {
    house == 'R' || house == 'W' || house == 'G' || house == 'X'
}

/// The tallies after one more house. A red house starts a flag. A white
/// house continues every start, a green house completes every flag that
/// lacks its green. An unpainted house stands for each of the three colours:
/// every tally is taken three times, the flags grow by those that lacked
/// their green, those by the starts, and the starts by three to the number of
/// unpainted houses before this one.
pub open spec fn step(t: Tally, house: char) -> Tally {
    if house == 'R' {
        Tally { r: t.r + 1, rw: t.rw, rwg: t.rwg, x: t.x }
    } else if house == 'W' {
        Tally { r: t.r, rw: t.rw + t.r, rwg: t.rwg, x: t.x }
    } else if house == 'G' {
        Tally { r: t.r, rw: t.rw, rwg: t.rwg + t.rw, x: t.x }
    } else if house == 'X' {
        Tally { r: 3 * t.r + pow3(t.x), rw: 3 * t.rw + t.r, rwg: 3 * t.rwg + t.rw, x: t.x + 1 }
    } else {
        t
    }
}

/// Every tally fits in 32 bits.
pub open spec fn fits(t: Tally) -> bool {
    t.r <= u32::MAX && t.rw <= u32::MAX && t.rwg <= u32::MAX && t.x <= u32::MAX
}

/// The tallies at the end of a street, or what stopped the walk: the first
/// mark that is no house, or the first house at which a tally outgrows 32
/// bits, whichever comes first.
pub open spec fn tally(houses: Seq<char>) -> Result<Tally, FlagsError>
    decreases houses.len(),
{
    if houses.len() == 0 {
        Ok(Tally { r: 0, rw: 0, rwg: 0, x: 0 })
    } else {
        match tally(houses.drop_last()) {
            Err(e) => Err(e),
            Ok(t) => {
                let house = houses.last();
                if !is_house(house) {
                    Err(FlagsError::InvalidHouse(house))
                } else if !fits(step(t, house)) {
                    Err(FlagsError::TooMany)
                } else {
                    Ok(step(t, house))
                }
            },
        }
    }
}

/// The tallies at the end of a street when nothing stops the walk: marks
/// that are no house are passed by, and the tallies grow as far as they grow.
pub open spec fn walk(houses: Seq<char>) -> Tally
    decreases houses.len(),
{
    if houses.len() == 0 {
        Tally { r: 0, rw: 0, rwg: 0, x: 0 }
    } else {
        step(walk(houses.drop_last()), houses.last())
    }
}

/// The count of a street: its tally of whole flags.
pub open spec fn flags(houses: Seq<char>) -> Result<u32, FlagsError> {
    match tally(houses) {
        Ok(t) => Ok(t.rwg as u32),
        Err(e) => Err(e),
    }
}

/// What `str::trim` leaves of a string: the string without the white space
/// at its two ends, white space being what Unicode calls so.
pub uninterp spec fn trimmed(houses: Seq<char>) -> Seq<char>;

/// Calls `str::trim`. Taken on trust: that the characters of the slice it
/// returns depend on the characters of the argument alone.
#[verifier::external_body]
fn trim(houses: &str) -> (rest: &str)
    ensures
        rest@ == trimmed(houses@),
{
    houses.trim()
}

/// Formats `"{} is not a valid character!"` with the house's mark. Taken on
/// trust: that `format!` copies the text around the braces and puts the
/// character itself in their place.
#[verifier::external_body]
fn invalid_house_message(house: char) -> (text: String)
    ensures
        text@ == seq![house] + " is not a valid character!"@,
{
    format!("{} is not a valid character!", house)
}

/// A walk that has stopped stays stopped, however the street goes on.
proof fn lemma_tally_stops(houses: Seq<char>, k: int)
    requires
        0 <= k <= houses.len(),
        tally(houses.take(k)) is Err,
    ensures
        tally(houses) == tally(houses.take(k)),
    decreases houses.len() - k,
{
    if k < houses.len() {
        assert(houses.take(k + 1).drop_last() =~= houses.take(k));
        lemma_tally_stops(houses, k + 1);
    } else {
        assert(houses.take(k) =~= houses);
    }
}

/// The walk ends well exactly on the streets of houses whose tallies fit in
/// 32 bits at the end, and ends with those tallies.
pub proof fn lemma_tally_ok(houses: Seq<char>)
    ensures
        tally(houses) is Ok <==> fits(walk(houses)) && forall|k: int|
            0 <= k < houses.len() ==> is_house(#[trigger] houses[k]),
        tally(houses) is Ok ==> tally(houses) == Ok::<Tally, FlagsError>(walk(houses)),
    decreases houses.len(),
{
    if houses.len() > 0 {
        let earlier = houses.drop_last();
        lemma_tally_ok(earlier);
        if tally(houses) is Ok {
            assert forall|k: int| 0 <= k < houses.len() implies is_house(#[trigger] houses[k]) by {
                if k < earlier.len() {
                    assert(houses[k] == earlier[k]);
                }
            }
        }
    }
}

/// A walk that a mark stops is stopped by the first mark of the street that
/// is no house.
pub proof fn lemma_tally_invalid(houses: Seq<char>, mark: char) -> (k: int)
    requires
        tally(houses) == Err::<Tally, FlagsError>(FlagsError::InvalidHouse(mark)),
    ensures
        0 <= k < houses.len(),
        houses[k] == mark,
        !is_house(mark),
        forall|j: int| 0 <= j < k ==> is_house(#[trigger] houses[j]),
    decreases houses.len(),
{
    let earlier = houses.drop_last();
    if tally(earlier) is Err {
        let k = lemma_tally_invalid(earlier, mark);
        assert forall|j: int| 0 <= j < k implies is_house(#[trigger] houses[j]) by {
            assert(houses[j] == earlier[j]);
        }
        k
    } else {
        lemma_tally_ok(earlier);
        assert forall|j: int| 0 <= j < houses.len() - 1 implies is_house(
            #[trigger] houses[j],
        ) by {
            assert(houses[j] == earlier[j]);
        }
        houses.len() - 1
    }
}

impl FlagsError {
    /// The error in words.
    pub fn message(&self) -> (text: String)
        ensures
            text@ == (match *self {
                FlagsError::InvalidHouse(house) => seq![house] + " is not a valid character!"@,
                FlagsError::TooMany => "there are more flags than 32 bits can count"@,
            }),
    {
        match *self {
            FlagsError::InvalidHouse(house) => invalid_house_message(house),
            FlagsError::TooMany => "there are more flags than 32 bits can count".to_owned(),
        }
    }
}

/// Three to the power `x`, if it fits in 32 bits.
fn power_of_three(x: u32) -> (p: Option<u32>)
    ensures
        (match p {
            Some(v) => v == pow3(x as nat),
            None => pow3(x as nat) > u32::MAX,
        }),
{
    let mut p: u32 = 1;
    let mut i: u32 = 0;
    while i < x
        invariant
            i <= x,
            p == pow3(i as nat),
        decreases x - i,
    {
        match p.checked_mul(3) {
            Some(v) => {
                p = v;
            },
            None => {
                proof {
                    lemma_pow3_grows(i as nat + 1, x as nat);
                }
                return None;
            },
        }
        i += 1;
    }
    Some(p)
}

proof fn lemma_pow3_grows(a: nat, b: nat)
    requires
        a <= b,
    ensures
        pow3(a) <= pow3(b),
    decreases b,
{
    if a < b {
        lemma_pow3_grows(a, (b - 1) as nat);
    }
}

/// Walks the street `houses` and returns its count of flags: `Ok` if every
/// mark is a house and no tally outgrows 32 bits, else the error that stopped
/// the walk.
pub fn count_flags(houses: &str) -> (res: Result<u32, FlagsError>)
    ensures
        res == flags(houses@),
{
    let mut r: u32 = 0;
    let mut rw: u32 = 0;
    let mut rwg: u32 = 0;
    let mut x: u32 = 0;
    for house in it: houses.chars()
        invariant
            it.seq() == houses@,
            tally(houses@.take(it.index() as int)) == Ok::<Tally, FlagsError>(
                Tally { r: r as nat, rw: rw as nat, rwg: rwg as nat, x: x as nat },
            ),
    {
        let ghost k = it.index() as int;
        proof {
            assert(houses@.take(k + 1).drop_last() =~= houses@.take(k));
            if tally(houses@.take(k + 1)) is Err {
                lemma_tally_stops(houses@, k + 1);
            }
        }
        if house == 'R' {
            match r.checked_add(1) {
                Some(v) => {
                    r = v;
                },
                None => {
                    return Err(FlagsError::TooMany);
                },
            }
        } else if house == 'W' {
            match rw.checked_add(r) {
                Some(v) => {
                    rw = v;
                },
                None => {
                    return Err(FlagsError::TooMany);
                },
            }
        } else if house == 'G' {
            match rwg.checked_add(rw) {
                Some(v) => {
                    rwg = v;
                },
                None => {
                    return Err(FlagsError::TooMany);
                },
            }
        } else if house == 'X' {
            let flags3 = rwg.checked_mul(3);
            let lacking3 = rw.checked_mul(3);
            let starts3 = r.checked_mul(3);
            let power = power_of_three(x);
            if flags3.is_none() || lacking3.is_none() || starts3.is_none() || power.is_none() {
                return Err(FlagsError::TooMany);
            }
            let new_rwg = flags3.unwrap().checked_add(rw);
            let new_rw = lacking3.unwrap().checked_add(r);
            let new_r = starts3.unwrap().checked_add(power.unwrap());
            let new_x = x.checked_add(1);
            if new_rwg.is_none() || new_rw.is_none() || new_r.is_none() || new_x.is_none() {
                return Err(FlagsError::TooMany);
            }
            rwg = new_rwg.unwrap();
            rw = new_rw.unwrap();
            r = new_r.unwrap();
            x = new_x.unwrap();
        } else {
            return Err(FlagsError::InvalidHouse(house));
        }
    }
    assert(houses@.take(houses@.len() as int) =~= houses@);
    Ok(rwg)
}

/// Returns the count of flags of the street written in `houses`, white
/// space at the two ends of the text set aside: `Ok` if every mark is a house
/// and no tally outgrows 32 bits, else the error that stopped the walk.
pub fn count_reverse_flags(houses: &str) -> (res: Result<u32, FlagsError>)
    ensures
        res == flags(trimmed(houses@)),
{
    count_flags(trim(houses))
}

} // verus!
