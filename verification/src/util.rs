//! Hash maps with a fast, optionally reproducible, hasher, and the settings
//! that a user can make.

use crate::text::chars_of;
use std::collections::HashMap;
use vstd::prelude::*;

verus! {

/// `ahash::RandomState`: the keys of a hasher. Nothing is known of a value
/// of it.
#[verifier::external_type_specification]
#[verifier::external_body]
pub struct ExRandomState(ahash::RandomState);

/// The hasher state that is made of four keys.
pub uninterp spec fn seeded_keys(k0: u64, k1: u64, k2: u64, k3: u64) -> ahash::RandomState;

/// `ahash::RandomState::with_seeds`: the hasher state made of exactly these
/// four keys, which is the same state whenever the keys are the same.
/// Nothing else is claimed of the state.
#[verifier::external_body]
pub(crate) fn seeded_state(k0: u64, k1: u64, k2: u64, k3: u64) -> (state: ahash::RandomState)
    ensures
        state == seeded_keys(k0, k1, k2, k3),
{
    ahash::RandomState::with_seeds(k0, k1, k2, k3)
}

/// The hasher state for a seed: the one made of the keys `seed`,
/// `seed + 1`, `seed + 2` and `seed + 3`.
pub open spec fn keys_for_seed(seed: u64) -> ahash::RandomState {
    seeded_keys(seed, (seed + 1) as u64, (seed + 2) as u64, (seed + 3) as u64)
}

/// `ahash::RandomState::new`: a hasher state with keys drawn at random.
/// Nothing is claimed of the state itself.
#[verifier::external_body]
pub(crate) fn random_state() -> ahash::RandomState {
    ahash::RandomState::new()
}

/// `HashMap::with_hasher`: an empty map that hashes with `state`.
#[verifier::external_body]
fn map_with_hasher<K, V>(state: ahash::RandomState) -> (map: HashMap<K, V, ahash::RandomState>)
    ensures
        (map@ == Map::<K, V>::empty()),
{
    HashMap::with_hasher(state)
}

/// An empty hash map. With a seed the hasher's keys are `seed`, `seed + 1`,
/// `seed + 2` and `seed + 3`, so that two runs hash alike; without one they
/// are drawn at random.
pub fn new_hashmap<K, V>(seed: Option<u64>) -> (m: HashMap<K, V, ahash::RandomState>)
    requires
        seed.is_some() ==> seed.unwrap() + 3 <= u64::MAX,
    ensures
        m@ == Map::<K, V>::empty(),
{
    map_with_hasher(hasher_keys(seed))
}

/// `HashMap::insert` on a map keyed by addresses and hashed by ahash: the
/// key holds the new value afterwards, and the value it held before, if
/// any, is returned.
#[verifier::external_body]
pub(crate) fn map_insert<V>(
    m: &mut HashMap<usize, V, ahash::RandomState>,
    key: usize,
    value: V,
) -> (previous: Option<V>)
    ensures
        final(m)@ == old(m)@.insert(key, value),
        previous == (if old(m)@.contains_key(key) { Some(old(m)@[key]) } else { None }),
{
    m.insert(key, value)
}

/// `HashMap::remove` on a map keyed by addresses and hashed by ahash: the
/// key holds nothing afterwards, and the value it held before, if any, is
/// returned.
#[verifier::external_body]
pub(crate) fn map_remove<V>(
    m: &mut HashMap<usize, V, ahash::RandomState>,
    key: usize,
) -> (previous: Option<V>)
    ensures
        final(m)@ == old(m)@.remove(key),
        previous == (if old(m)@.contains_key(key) { Some(old(m)@[key]) } else { None }),
{
    m.remove(&key)
}

/// `HashMap::get` on a map keyed by addresses and hashed by ahash: the value
/// that the key holds, if any.
#[verifier::external_body]
pub(crate) fn map_get_ref<V>(m: &HashMap<usize, V, ahash::RandomState>, key: usize) -> (value:
    Option<&V>)
    ensures
        value == (if m@.contains_key(key) { Some(&m@[key]) } else { None }),
{
    m.get(&key)
}

/// A copy of the value that the key holds, if any.
pub(crate) fn map_get<V: Copy>(m: &HashMap<usize, V, ahash::RandomState>, key: usize) -> (value:
    Option<V>)
    ensures
        value == (if m@.contains_key(key) { Some(m@[key]) } else { None }),
{
    match map_get_ref(m, key) {
        Some(value) => Some(*value),
        None => None,
    }
}

/// The keys of the hasher for a seed: `seed`, `seed + 1`, `seed + 2` and
/// `seed + 3`, so that two runs hash alike; keys drawn at random where there
/// is no seed.
pub(crate) fn hasher_keys(seed: Option<u64>) -> (keys: ahash::RandomState)
    requires
        seed.is_some() ==> seed.unwrap() + 3 <= u64::MAX,
    ensures
        seed.is_some() ==> keys == keys_for_seed(seed.unwrap()),
{
    match seed {
        Some(seed) => seeded_state(seed, seed + 1, seed + 2, seed + 3),
        None => random_state(),
    }
}

/// Every pair of the map once, in some order.
pub open spec fn lists_all<V>(pairs: Seq<(usize, V)>, m: Map<usize, V>) -> bool {
    &&& pairs.len() == m.dom().len()
    &&& forall|i: int| 0 <= i < pairs.len() ==> m.contains_pair((#[trigger] pairs[i]).0, pairs[i].1)
    &&& forall|i: int, j: int|
        0 <= i < j < pairs.len() ==> (#[trigger] pairs[i]).0 != (#[trigger] pairs[j]).0
}

/// `HashMap::iter` on a map keyed by addresses and hashed by ahash: every
/// pair of the map once, in an order of which nothing is claimed.
#[verifier::external_body]
pub(crate) fn map_entries<V: Copy>(m: &HashMap<usize, V, ahash::RandomState>) -> (pairs: Vec<
    (usize, V),
>)
    ensures
        lists_all(pairs@, m@),
{
    m.iter().map(|(key, value)| (*key, *value)).collect()
}

/// Whether verbose diagnostics are wanted, given the value of the setting
/// for them, if it is set: they are where it is `1`.
pub fn debug_mode(value: Option<&str>) -> (debug: bool)
    ensures
        debug == (value.is_some() && value.unwrap()@ == "1"@),
{
    match value {
        Some(value) => {
            let chars = chars_of(value);
            proof {
                reveal_strlit("1");
            }
            if chars.len() == 1 && chars[0] == '1' {
                assert(chars@ =~= "1"@);
                true
            } else {
                false
            }
        },
        None => false,
    }
}

/// Whether `c` is a decimal digit.
pub open spec fn is_digit(c: char) -> bool {
    '0' <= c <= '9'
}

/// The number that the digits spell.
pub open spec fn digits_value(digits: Seq<char>) -> int
    decreases digits.len(),
{
    if digits.len() == 0 {
        0
    } else {
        digits_value(digits.drop_last()) * 10 + (digits.last() as int - '0' as int)
    }
}

/// Whether the text is made of decimal digits.
pub open spec fn all_digits(text: Seq<char>) -> bool {
    forall|i: int| 0 <= i < text.len() ==> is_digit(#[trigger] text[i])
}

/// Length of the sign in front of a number: 1 where the text begins with
/// `-` or `+`.
pub open spec fn sign_len(text: Seq<char>) -> int {
    if text.len() > 0 && (text[0] == '-' || text[0] == '+') {
        1
    } else {
        0
    }
}

/// The number that a text spells as a signed 64-bit number: digits, with
/// or without a sign in front of them, and in range. Nothing else spells a
/// number.
pub open spec fn signed_value(text: Seq<char>) -> Option<int> {
    let digits = text.skip(sign_len(text));
    let value = if text.len() > 0 && text[0] == '-' {
        -digits_value(digits)
    } else {
        digits_value(digits)
    };
    if digits.len() > 0 && all_digits(digits) && -0x8000_0000_0000_0000 <= value
        <= 0x7fff_ffff_ffff_ffff {
        Some(value)
    } else {
        None
    }
}

/// What the setting for the seed of the hashers asks for.
#[derive(Clone, Copy, Debug, PartialEq, Eq, Structural)]
pub enum SeedSetting {
    /// Keys drawn at random: the setting is not set, or it is `random`.
    Random,
    /// This seed.
    Seed(u64),
    /// The setting spells no number.
    Invalid,
}

/// What the setting for the seed asks for, given its value, if it is set.
/// A number is taken as the seed; a negative one stands for the seed that
/// has the same bits.
pub open spec fn spec_hash_seed(value: Option<Seq<char>>) -> SeedSetting {
    match value {
        None => SeedSetting::Random,
        Some(text) => if text == "random"@ {
            SeedSetting::Random
        } else {
            match signed_value(text) {
                Some(number) => SeedSetting::Seed(
                    (if number >= 0 {
                        number
                    } else {
                        number + 0x1_0000_0000_0000_0000
                    }) as u64,
                ),
                None => SeedSetting::Invalid,
            }
        },
    }
}

/// More digits spell no smaller a number.
pub proof fn lemma_digits_value_grows(digits: Seq<char>, n: int)
    requires
        0 <= n <= digits.len(),
        all_digits(digits),
    ensures
        0 <= digits_value(digits.take(n)) <= digits_value(digits),
    decreases digits.len() - n,
{
    if n == digits.len() {
        assert(digits.take(n) =~= digits);
        lemma_digits_value_nonnegative(digits);
    } else {
        lemma_digits_value_grows(digits, n + 1);
        assert(digits.take(n + 1).drop_last() =~= digits.take(n));
        assert(is_digit(digits[n]));
        assert(digits.take(n + 1).last() == digits[n]);
        assert(all_digits(digits.take(n))) by {
            assert forall|i: int| 0 <= i < digits.take(n).len() implies is_digit(
                #[trigger] digits.take(n)[i],
            ) by {
                assert(digits.take(n)[i] == digits[i]);
            }
        }
        lemma_digits_value_nonnegative(digits.take(n));
    }
}

/// Digits spell no negative number.
pub proof fn lemma_digits_value_nonnegative(digits: Seq<char>)
    requires
        all_digits(digits),
    ensures
        0 <= digits_value(digits),
    decreases digits.len(),
{
    if digits.len() > 0 {
        let front = digits.drop_last();
        assert(all_digits(front)) by {
            assert forall|i: int| 0 <= i < front.len() implies is_digit(#[trigger] front[i]) by {
                assert(front[i] == digits[i]);
            }
        }
        lemma_digits_value_nonnegative(front);
        assert(is_digit(digits[digits.len() - 1]));
    }
}

/// What the setting for the seed asks for, given its value, if it is set.
pub fn hash_seed(value: Option<&str>) -> (setting: SeedSetting)
    ensures
        setting == spec_hash_seed(
            match value {
                Some(text) => Some(text@),
                None => None,
            },
        ),
{
    let text = match value {
        Some(value) => chars_of(value),
        None => {
            return SeedSetting::Random;
        },
    };
    let random = chars_of("random");
    if crate::cgroup::is_text(&text, 0, text.len(), &random) {
        proof {
            assert(text@.subrange(0, text@.len() as int) =~= text@);
        }
        return SeedSetting::Random;
    }
    proof {
        assert(text@.subrange(0, text@.len() as int) =~= text@);
    }
    let negative = text.len() > 0 && text[0] == '-';
    let first: usize = if text.len() > 0 && (text[0] == '-' || text[0] == '+') {
        1
    } else {
        0
    };
    let ghost digits = text@.skip(first as int);
    if first >= text.len() {
        return SeedSetting::Invalid;
    }
    let mut number: u128 = 0;
    let mut idx: usize = first;
    proof {
        assert(digits.take(0) =~= Seq::<char>::empty());
    }
    while idx < text.len()
        invariant
            first <= idx <= text.len(),
            value.is_some(),
            text@ == value.unwrap()@,
            text@ != "random"@,
            first == sign_len(text@),
            digits == text@.skip(first as int),
            all_digits(digits.take(idx - first)),
            number == digits_value(digits.take(idx - first)),
            number <= 0x8000_0000_0000_0000,
        decreases text.len() - idx,
    {
        let c = text[idx];
        proof {
            assert(digits[idx - first] == c);
            assert(digits.take(idx - first + 1).drop_last() =~= digits.take(idx - first));
            assert(digits.take(idx - first + 1).last() == c);
        }
        if !('0' <= c && c <= '9') {
            proof {
                assert(!is_digit(digits[idx - first]));
                assert(!all_digits(digits));
            }
            return SeedSetting::Invalid;
        }
        proof {
            assert(all_digits(digits.take(idx - first + 1))) by {
                assert forall|i: int| 0 <= i < idx - first + 1 implies is_digit(
                    #[trigger] digits.take(idx - first + 1)[i],
                ) by {
                    if i < idx - first {
                        assert(digits.take(idx - first)[i] == digits.take(idx - first + 1)[i]);
                    }
                }
            }
        }
        let digit: u128 = (c as u32 - '0' as u32) as u128;
        number = number * 10 + digit;
        idx += 1;
        if number > 0x8000_0000_0000_0000 {
            proof {
                if all_digits(digits) {
                    lemma_digits_value_grows(digits, idx - first);
                }
            }
            return SeedSetting::Invalid;
        }
    }
    proof {
        assert(digits.take(idx - first) =~= digits);
    }
    if negative {
        if number == 0 {
            SeedSetting::Seed(0)
        } else {
            SeedSetting::Seed((0x1_0000_0000_0000_0000u128 - number) as u64)
        }
    } else if number > 0x7fff_ffff_ffff_ffff {
        SeedSetting::Invalid
    } else {
        SeedSetting::Seed(number as u64)
    }
}

} // verus!
