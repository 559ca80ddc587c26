//! Secret generation: random secrets that hold at least a given number of
//! characters of each requested class, and the options that drive it.

use rand::seq::SliceRandom;
use vstd::multiset::Multiset;
use vstd::prelude::*;
use vstd::string::StringExecFns;

verus! {

broadcast use vstd::seq_lib::group_to_multiset_ensures, vstd::multiset::group_multiset_axioms;

/// Upper-case ASCII letters, `A` to `Z`.
pub open spec fn upper_class() -> spec_fn(char) -> bool {
    |c: char| 0x41 <= c as u32 <= 0x5a
}

/// Lower-case ASCII letters, `a` to `z`.
pub open spec fn lower_class() -> spec_fn(char) -> bool {
    |c: char| 0x61 <= c as u32 <= 0x7a
}

/// ASCII digits, `0` to `9`.
pub open spec fn digit_class() -> spec_fn(char) -> bool {
    |c: char| 0x30 <= c as u32 <= 0x39
}

/// The characters of a special character set.
pub open spec fn special_class(charset: Seq<char>) -> spec_fn(char) -> bool {
    |c: char| charset.contains(c)
}

/// How many characters of `s` belong to class `class`.
pub open spec fn class_count(s: Seq<char>, class: spec_fn(char) -> bool) -> nat {
    s.to_multiset().filter(class).len()
}

/// The minimum asked for by an optional class flag: none when absent.
pub open spec fn min_count(min: Option<usize>) -> nat {
    match min {
        Some(m) => m as nat,
        None => 0,
    }
}

/// The minimum asked for by the optional special class.
pub open spec fn special_min_count(special: Option<(String, usize)>) -> nat {
    match special {
        Some((_, m)) => m as nat,
        None => 0,
    }
}

/// The number of characters the minimums ask for together.
pub open spec fn required_len(
    uppercase: Option<usize>,
    lowercase: Option<usize>,
    digits: Option<usize>,
    special: Option<(String, usize)>,
) -> nat {
    min_count(uppercase) + min_count(lowercase) + min_count(digits) + special_min_count(special)
}

/// The length of the secret: `length`, raised to the sum of the minimums
/// where that sum is larger.
pub open spec fn secret_len(
    length: usize,
    uppercase: Option<usize>,
    lowercase: Option<usize>,
    digits: Option<usize>,
    special: Option<(String, usize)>,
) -> nat {
    let required = required_len(uppercase, lowercase, digits, special);
    if length >= required {
        length as nat
    } else {
        required
    }
}

/// Whether `c` belongs to one of the requested classes.
pub open spec fn in_pool(
    c: char,
    uppercase: Option<usize>,
    lowercase: Option<usize>,
    digits: Option<usize>,
    special: Option<(String, usize)>,
) -> bool {
    ||| uppercase is Some && upper_class()(c)
    ||| lowercase is Some && lower_class()(c)
    ||| digits is Some && digit_class()(c)
    ||| special matches Some((cs, _)) && special_class(cs@)(c)
}

/// Whether some requested class has a character.
pub open spec fn pool_nonempty(
    uppercase: Option<usize>,
    lowercase: Option<usize>,
    digits: Option<usize>,
    special: Option<(String, usize)>,
) -> bool {
    ||| uppercase is Some
    ||| lowercase is Some
    ||| digits is Some
    ||| special matches Some((cs, _)) && cs@.len() > 0
}

/// The character classes: upper case is exactly `A` to `Z`, lower case
/// exactly `a` to `z`, digits exactly `0` to `9`, and a special class exactly
/// the characters of its set.
pub proof fn law_character_classes(c: char, charset: Seq<char>)
    ensures
        upper_class()(c) <==> 0x41 <= c as u32 <= 0x5a,
        lower_class()(c) <==> 0x61 <= c as u32 <= 0x7a,
        digit_class()(c) <==> 0x30 <= c as u32 <= 0x39,
        special_class(charset)(c) <==> charset.contains(c),
{
}

/// A character may appear in a secret exactly when it lies in one of the
/// requested classes: upper case `A`-`Z` where an upper-case minimum is
/// given, lower case `a`-`z`, digits `0`-`9`, or the given special set.
pub proof fn law_pool_is_union_of_classes(
    c: char,
    uppercase: Option<usize>,
    lowercase: Option<usize>,
    digits: Option<usize>,
    special: Option<(String, usize)>,
)
    ensures
        in_pool(c, uppercase, lowercase, digits, special) <==> (
            (0x41 <= c as u32 <= 0x5a && uppercase is Some)
            || (0x61 <= c as u32 <= 0x7a && lowercase is Some)
            || (0x30 <= c as u32 <= 0x39 && digits is Some)
            || (special.unwrap().0@.contains(c) && special is Some)
        ),
{
}

/// The length of a secret is the requested length, or the sum of the
/// minimums where that is larger; in particular, a length at least that sum
/// is kept exactly.
pub proof fn law_secret_len(
    length: usize,
    uppercase: Option<usize>,
    lowercase: Option<usize>,
    digits: Option<usize>,
    special: Option<(String, usize)>,
)
    ensures
        ({
            let total = (match uppercase {
                Some(m) => m as int,
                None => 0int,
            }) + (match lowercase {
                Some(m) => m as int,
                None => 0int,
            }) + (match digits {
                Some(m) => m as int,
                None => 0int,
            }) + (match special {
                Some((_, m)) => m as int,
                None => 0int,
            });
            &&& required_len(uppercase, lowercase, digits, special) == total
            &&& secret_len(length, uppercase, lowercase, digits, special) >= length
            &&& secret_len(length, uppercase, lowercase, digits, special) >= total
            &&& length >= total ==> secret_len(length, uppercase, lowercase, digits, special)
                == length
            &&& length < total ==> secret_len(length, uppercase, lowercase, digits, special)
                == total
        }),
{
}

/// What the pool contract of a secret says, in terms of the characters
/// themselves.
proof fn lemma_direct_secret_chars(
    secret: Seq<char>,
    uppercase: Option<usize>,
    lowercase: Option<usize>,
    digits: Option<usize>,
    special: Option<(String, usize)>,
)
    requires
        forall|i: int|
            0 <= i < secret.len() ==> in_pool(
                #[trigger] secret[i],
                uppercase,
                lowercase,
                digits,
                special,
            ),
    ensures
        forall|i: int|
            0 <= i < secret.len() ==> (
                (0x41 <= ((#[trigger] secret[i]) as u32) && ((secret[i]) as u32) <= 0x5a && uppercase is Some)
                || (0x61 <= (secret[i] as u32) && (secret[i] as u32) <= 0x7a && lowercase is Some)
                || (0x30 <= (secret[i] as u32) && (secret[i] as u32) <= 0x39 && digits is Some)
                || (special.unwrap().0@.contains(secret[i]) && special is Some)
            ),
{
    assert forall|i: int| 0 <= i < secret.len() implies (
        (0x41 <= ((#[trigger] secret[i]) as u32) && ((secret[i]) as u32) <= 0x5a && uppercase is Some)
        || (0x61 <= (secret[i] as u32) && (secret[i] as u32) <= 0x7a && lowercase is Some)
        || (0x30 <= (secret[i] as u32) && (secret[i] as u32) <= 0x39 && digits is Some)
        || (special.unwrap().0@.contains(secret[i]) && special is Some)
    ) by {
        law_pool_is_union_of_classes(secret[i], uppercase, lowercase, digits, special);
    }
}

/// What the length contract of a secret says, in terms of the minimums
/// themselves.
proof fn lemma_direct_secret_len(
    secret: Seq<char>,
    length: usize,
    uppercase: Option<usize>,
    lowercase: Option<usize>,
    digits: Option<usize>,
    special: Option<(String, usize)>,
)
    requires
        secret.len() == secret_len(length, uppercase, lowercase, digits, special),
    ensures
        ({
            let total = (match uppercase {
                Some(m) => m as int,
                None => 0int,
            }) + (match lowercase {
                Some(m) => m as int,
                None => 0int,
            }) + (match digits {
                Some(m) => m as int,
                None => 0int,
            }) + (match special {
                Some((_, m)) => m as int,
                None => 0int,
            });
            secret.len() == if length >= total {
                length as int
            } else {
                total
            }
        }),
{
    law_secret_len(length, uppercase, lowercase, digits, special);
}

/// Pushing a character adds one to the count of each class it belongs to and
/// leaves the other counts alone.
pub proof fn lemma_class_count_push(s: Seq<char>, c: char, class: spec_fn(char) -> bool)
    ensures
        class_count(s.push(c), class) == class_count(s, class) + if class(c) {
            1nat
        } else {
            0nat
        },
{
    let before = s.to_multiset().filter(class);
    let after = s.push(c).to_multiset().filter(class);
    assert(s.push(c).to_multiset() =~= s.to_multiset().insert(c));
    if class(c) {
        assert(after =~= before.insert(c));
    } else {
        assert(after =~= before);
    }
}

/// Two sequences with the same multiset have the same class counts and the
/// same characters.
pub proof fn lemma_same_multiset(a: Seq<char>, b: Seq<char>)
    requires
        a.to_multiset() == b.to_multiset(),
    ensures
        forall|class: spec_fn(char) -> bool| #[trigger] class_count(a, class) == class_count(b, class),
        forall|i: int| 0 <= i < b.len() ==> a.contains(#[trigger] b[i]),
{
    a.to_multiset_ensures();
    b.to_multiset_ensures();
    assert forall|i: int| 0 <= i < b.len() implies a.contains(#[trigger] b[i]) by {
        assert(b.contains(b[i]));
        assert(b.to_multiset().count(b[i]) > 0);
    }
}

/// The characters `start`, `start + 1`, ... up to `len` of them.
fn ascii_run(start: u8, len: u8) -> (run: Vec<char>)
    requires
        start + len <= 128,
    ensures
        run@.len() == len,
        forall|i: int| 0 <= i < len ==> #[trigger] run@[i] as u32 == start + i,
{
    let mut run: Vec<char> = Vec::new();
    let mut i: u8 = 0;
    while i < len
        invariant
            start + len <= 128,
            i <= len,
            run@.len() == i,
            forall|j: int| 0 <= j < i ==> #[trigger] run@[j] as u32 == start + j,
        decreases len - i,
    {
        let c = (start + i) as char;
        run.push(c);
        i = i + 1;
    }
    run
}

/// A uniformly random element of `chars` (`SliceRandom::choose` of rand with
/// `OsRng`).
/// Trusted: which element comes back is left open; `choose` gives `None`
/// only for an empty slice, which `requires` excludes. The crate panics
/// where the operating system supplies no randomness.
#[verifier::external_body]
fn choose_char(chars: &Vec<char>) -> (c: char)
    requires
        chars@.len() > 0,
    ensures
        chars@.contains(c),
{
    *chars.choose(&mut rand::rngs::OsRng).unwrap()
}

/// Shuffles `chars` in place (`SliceRandom::shuffle` of rand with `OsRng`).
/// Trusted: the order that comes out is left open; the crate only swaps
/// elements, so the same characters stay, as many times each.
#[verifier::external_body]
fn shuffle_chars(chars: &mut Vec<char>)
    ensures
        final(chars)@.to_multiset() == old(chars)@.to_multiset(),
{
    chars.shuffle(&mut rand::rngs::OsRng)
}

/// The string of the characters `chars` (`String`'s `FromIterator<char>`).
#[verifier::external_body]
pub(crate) fn chars_to_string(chars: Vec<char>) -> (s: String)
    ensures
        s@ == chars@,
{
    String::from_iter(chars)
}

/// The characters of `s`.
pub fn str_chars(s: &str) -> (chars: Vec<char>)
    ensures
        chars@ == s@,
{
    let mut chars: Vec<char> = Vec::new();
    for c in it: s.chars()
        invariant
            chars@ == it.seq().take(it.index() as int),
            it.seq() == s@,
    {
        chars.push(c);
    }
    chars
}

/// Appends `count` random characters of `from` to `out`.
fn push_chosen(
    out: &mut Vec<char>,
    from: &Vec<char>,
    count: usize,
    Ghost(class): Ghost<spec_fn(char) -> bool>,
)
    requires
        count > 0 ==> from@.len() > 0,
        forall|i: int| 0 <= i < from@.len() ==> class(#[trigger] from@[i]),
    ensures
        final(out)@.len() == old(out)@.len() + count,
        final(out)@.take(old(out)@.len() as int) == old(out)@,
        forall|j: int|
            old(out)@.len() <= j < final(out)@.len() ==> from@.contains(#[trigger] final(out)@[j]),
        class_count(final(out)@, class) >= class_count(old(out)@, class) + count,
        forall|p: spec_fn(char) -> bool| #[trigger]
            class_count(final(out)@, p) >= class_count(old(out)@, p),
{
    let ghost start = out@;
    for _i in 0..count
        invariant
            count > 0 ==> from@.len() > 0,
            forall|i: int| 0 <= i < from@.len() ==> class(#[trigger] from@[i]),
            out@.len() == start.len() + _i,
            out@.take(start.len() as int) == start,
            forall|j: int| start.len() <= j < out@.len() ==> from@.contains(#[trigger] out@[j]),
            class_count(out@, class) >= class_count(start, class) + _i,
            forall|p: spec_fn(char) -> bool| #[trigger]
                class_count(out@, p) >= class_count(start, p),
    {
        let c = choose_char(from);
        let ghost before = out@;
        out.push(c);
        proof {
            assert(out@ == before.push(c));
            assert(out@.take(start.len() as int) =~= before.take(start.len() as int));
            let k = choose|k: int| 0 <= k < from@.len() && from@[k] == c;
            assert(class(from@[k]));
            lemma_class_count_push(before, c, class);
            assert forall|p: spec_fn(char) -> bool| #[trigger]
                class_count(out@, p) >= class_count(start, p) by {
                lemma_class_count_push(before, c, p);
                assert(class_count(before, p) >= class_count(start, p));
            }
            assert forall|j: int| start.len() <= j < out@.len() implies from@.contains(
                #[trigger] out@[j],
            ) by {
                if j < before.len() {
                    assert(out@[j] == before[j]);
                }
            }
        }
    }
}

/// A sequence that grows from one whose characters all satisfy `ok` by
/// characters of `from`, all of which satisfy `ok`, keeps that property.
proof fn lemma_grown_in_class(
    before: Seq<char>,
    after: Seq<char>,
    from: Seq<char>,
    ok: spec_fn(char) -> bool,
)
    requires
        before.len() <= after.len(),
        after.take(before.len() as int) == before,
        forall|j: int| 0 <= j < before.len() ==> ok(#[trigger] before[j]),
        forall|j: int| before.len() <= j < after.len() ==> from.contains(#[trigger] after[j]),
        forall|i: int| 0 <= i < from.len() ==> ok(#[trigger] from[i]),
    ensures
        forall|j: int| 0 <= j < after.len() ==> ok(#[trigger] after[j]),
{
    assert forall|j: int| 0 <= j < after.len() implies ok(#[trigger] after[j]) by {
        if j < before.len() {
            assert(after.take(before.len() as int)[j] == before[j]);
        } else {
            let k = choose|k: int| 0 <= k < from.len() && from[k] == after[j];
            assert(ok(from[k]));
        }
    }
}

/// Appends every character of `from` to `pool`.
fn extend_pool(pool: &mut Vec<char>, from: &Vec<char>)
    ensures
        final(pool)@ == old(pool)@ + from@,
        final(pool)@.take(old(pool)@.len() as int) == old(pool)@,
        forall|j: int|
            old(pool)@.len() <= j < final(pool)@.len() ==> from@.contains(#[trigger] final(pool)@[j]),
{
    let ghost start = pool@;
    let n = from.len();
    for i in 0..n
        invariant
            n == from@.len(),
            pool@ == start + from@.take(i as int),
    {
        pool.push(from[i]);
        assert(from@.take(i + 1) =~= from@.take(i as int).push(from@[i as int]));
    }
    assert(from@.take(n as int) =~= from@);
    assert(pool@.take(start.len() as int) =~= start);
    assert forall|j: int| start.len() <= j < pool@.len() implies from@.contains(#[trigger] pool@[j]) by {
        assert(pool@[j] == from@[j - start.len()]);
    }
}

/// A random secret. Each requested class gives at least its minimum number
/// of characters, every character comes from a requested class, and the
/// length is `length`, raised to the sum of the minimums where that is
/// larger. The characters are shuffled.
#[verifier::rlimit(40)]
pub fn generate_secret(
    length: usize,
    uppercase: Option<usize>,
    lowercase: Option<usize>,
    digits: Option<usize>,
    special: Option<(String, usize)>,
) -> (secret: String)
    requires
        required_len(uppercase, lowercase, digits, special) <= usize::MAX,
        special matches Some((cs, m)) ==> (m > 0 ==> cs@.len() > 0),
        length > required_len(uppercase, lowercase, digits, special) ==> pool_nonempty(
            uppercase,
            lowercase,
            digits,
            special,
        ),
    ensures
        secret@.len() == secret_len(length, uppercase, lowercase, digits, special),
        uppercase matches Some(m) ==> class_count(secret@, upper_class()) >= m,
        lowercase matches Some(m) ==> class_count(secret@, lower_class()) >= m,
        digits matches Some(m) ==> class_count(secret@, digit_class()) >= m,
        special matches Some((cs, m)) ==> class_count(secret@, special_class(cs@)) >= m,
        forall|i: int|
            0 <= i < secret@.len() ==> in_pool(
                #[trigger] secret@[i],
                uppercase,
                lowercase,
                digits,
                special,
            ),
        forall|i: int|
            0 <= i < secret@.len() ==> (
                (0x41 <= ((#[trigger] secret@[i]) as u32) && ((secret@[i]) as u32) <= 0x5a && uppercase is Some)
                || (0x61 <= (secret@[i] as u32) && (secret@[i] as u32) <= 0x7a && lowercase is Some)
                || (0x30 <= (secret@[i] as u32) && (secret@[i] as u32) <= 0x39 && digits is Some)
                || (special.unwrap().0@.contains(secret@[i]) && special is Some)
            ),
        ({
            let total = (match uppercase {
                Some(m) => m as int,
                None => 0int,
            }) + (match lowercase {
                Some(m) => m as int,
                None => 0int,
            }) + (match digits {
                Some(m) => m as int,
                None => 0int,
            }) + (match special {
                Some((_, m)) => m as int,
                None => 0int,
            });
            secret@.len() == if length >= total {
                length as int
            } else {
                total
            }
        }),
{
    let upper_chars = ascii_run(65, 26);
    let lower_chars = ascii_run(97, 26);
    let digit_chars = ascii_run(48, 10);
    let ghost pool_ok = |c: char| in_pool(c, uppercase, lowercase, digits, special);
    let mut required: Vec<char> = Vec::new();
    let mut pool: Vec<char> = Vec::new();
    proof {
        assert forall|i: int| 0 <= i < 26 implies upper_class()(#[trigger] upper_chars@[i]) by {
            assert(65 <= upper_chars@[i] as u32 <= 90);
        }
        assert forall|i: int| 0 <= i < 26 implies lower_class()(#[trigger] lower_chars@[i]) by {
            assert(97 <= lower_chars@[i] as u32 <= 122);
        }
        assert(forall|i: int| 0 <= i < 10 ==> digit_class()(#[trigger] digit_chars@[i]));
    }
    if let Some(min) = uppercase {
        let ghost (r0, p0) = (required@, pool@);
        push_chosen(&mut required, &upper_chars, min, Ghost(upper_class()));
        extend_pool(&mut pool, &upper_chars);
        proof {
            lemma_grown_in_class(r0, required@, upper_chars@, pool_ok);
            lemma_grown_in_class(p0, pool@, upper_chars@, pool_ok);
        }
    }
    if let Some(min) = lowercase {
        let ghost (r0, p0) = (required@, pool@);
        push_chosen(&mut required, &lower_chars, min, Ghost(lower_class()));
        extend_pool(&mut pool, &lower_chars);
        proof {
            lemma_grown_in_class(r0, required@, lower_chars@, pool_ok);
            lemma_grown_in_class(p0, pool@, lower_chars@, pool_ok);
        }
    }
    if let Some(min) = digits {
        let ghost (r0, p0) = (required@, pool@);
        push_chosen(&mut required, &digit_chars, min, Ghost(digit_class()));
        extend_pool(&mut pool, &digit_chars);
        proof {
            lemma_grown_in_class(r0, required@, digit_chars@, pool_ok);
            lemma_grown_in_class(p0, pool@, digit_chars@, pool_ok);
        }
    }
    if let Some((charset, min)) = &special {
        let ghost (r0, p0) = (required@, pool@);
        let special_chars = str_chars(charset.as_str());
        push_chosen(&mut required, &special_chars, *min, Ghost(special_class(charset@)));
        extend_pool(&mut pool, &special_chars);
        proof {
            lemma_grown_in_class(r0, required@, special_chars@, pool_ok);
            lemma_grown_in_class(p0, pool@, special_chars@, pool_ok);
        }
    }
    assert(forall|j: int| 0 <= j < required@.len() ==> pool_ok(#[trigger] required@[j]));
    assert(forall|j: int| 0 <= j < pool@.len() ==> pool_ok(#[trigger] pool@[j]));
    assert(pool_nonempty(uppercase, lowercase, digits, special) ==> pool@.len() > 0);
    assert(required@.len() == required_len(uppercase, lowercase, digits, special));
    let effective_length = if length >= required.len() {
        length
    } else {
        required.len()
    };
    let mut result = required;
    let fill = effective_length - result.len();
    let ghost required_view = result@;
    push_chosen(&mut result, &pool, fill, Ghost(pool_ok));
    let ghost unshuffled = result@;
    proof {
        lemma_grown_in_class(required_view, unshuffled, pool@, pool_ok);
    }
    shuffle_chars(&mut result);
    proof {
        lemma_same_multiset(unshuffled, result@);
        assert(unshuffled.len() == unshuffled.to_multiset().len());
        assert(result@.len() == result@.to_multiset().len());
        assert forall|i: int| 0 <= i < result@.len() implies pool_ok(#[trigger] result@[i]) by {
            assert(unshuffled.contains(result@[i]));
        }
        assert(class_count(unshuffled, upper_class()) >= class_count(required_view, upper_class()));
        assert(class_count(unshuffled, lower_class()) >= class_count(required_view, lower_class()));
        assert(class_count(unshuffled, digit_class()) >= class_count(required_view, digit_class()));
        if special is Some {
            let cs = special.unwrap().0;
            assert(class_count(unshuffled, special_class(cs@)) >= class_count(
                required_view,
                special_class(cs@),
            ));
            assert(class_count(result@, special_class(cs@)) == class_count(
                unshuffled,
                special_class(cs@),
            ));
        }
        assert(class_count(result@, upper_class()) == class_count(unshuffled, upper_class()));
        assert(class_count(result@, lower_class()) == class_count(unshuffled, lower_class()));
        assert(class_count(result@, digit_class()) == class_count(unshuffled, digit_class()));
        lemma_direct_secret_chars(result@, uppercase, lowercase, digits, special);
        lemma_direct_secret_len(result@, length, uppercase, lowercase, digits, special);
    }
    chars_to_string(result)
}

/// The special characters used when `-s` names no character set.
pub const DEFAULT_SPECIAL_CHARS: &'static str = "!@#$%^&*()-_=+";

/// Whether `c` is an ASCII digit.
pub open spec fn is_digit_char(c: char) -> bool {
    0x30 <= c as u32 <= 0x39
}

/// The number of ASCII digits at the end of `s`.
pub open spec fn trailing_digits(s: Seq<char>) -> nat
    decreases s.len(),
{
    if s.len() > 0 && is_digit_char(s.last()) {
        1 + trailing_digits(s.drop_last())
    } else {
        0
    }
}

/// The number that the ASCII digits `s` write in decimal.
pub open spec fn decimal_value(s: Seq<char>) -> nat
    decreases s.len(),
{
    if s.len() == 0 {
        0
    } else {
        10 * decimal_value(s.drop_last()) + (s.last() as u32 - 0x30) as nat
    }
}

/// The character set that a `-s` value asks for: what stands before its
/// trailing digits, or the default set where nothing does.
pub open spec fn special_charset(spec: Seq<char>) -> Seq<char> {
    let prefix = spec.take(spec.len() - trailing_digits(spec));
    if prefix.len() == 0 {
        DEFAULT_SPECIAL_CHARS@
    } else {
        prefix
    }
}

/// The minimum count that a `-s` value asks for: the number its trailing
/// digits write, or 1 where it has none or the number does not fit in a
/// `usize`.
pub open spec fn special_min(spec: Seq<char>) -> usize {
    let n = trailing_digits(spec);
    let digits = spec.skip(spec.len() - n);
    if n == 0 {
        1
    } else if decimal_value(digits) <= usize::MAX {
        decimal_value(digits) as usize
    } else {
        1
    }
}

/// Whether `c` is an ASCII digit.
fn is_ascii_digit(c: char) -> (digit: bool)
    ensures
        digit == is_digit_char(c),
{
    let code = c as u32;
    0x30 <= code && code <= 0x39
}

proof fn lemma_trailing_digits_bound(s: Seq<char>)
    ensures
        trailing_digits(s) <= s.len(),
        forall|j: int| s.len() - trailing_digits(s) <= j < s.len() ==> is_digit_char(#[trigger] s[j]),
    decreases s.len(),
{
    if s.len() > 0 && is_digit_char(s.last()) {
        lemma_trailing_digits_bound(s.drop_last());
        assert forall|j: int| s.len() - trailing_digits(s) <= j < s.len() implies is_digit_char(
            #[trigger] s[j],
        ) by {
            if j < s.len() - 1 {
                assert(s[j] == s.drop_last()[j]);
            }
        }
    }
}

/// The trailing digits of `s` are its longest run of ASCII digits at the end:
/// every character of the run is a digit, and the one before it is not.
pub proof fn law_trailing_digits(s: Seq<char>)
    ensures
        trailing_digits(s) <= s.len(),
        forall|j: int|
            s.len() - trailing_digits(s) <= j < s.len() ==> 0x30 <= (#[trigger] s[j]) as u32
                <= 0x39,
        trailing_digits(s) < s.len() ==> !(0x30 <= s[s.len() - trailing_digits(s) - 1] as u32
            <= 0x39),
    decreases s.len(),
{
    lemma_trailing_digits_bound(s);
    if s.len() > 0 && is_digit_char(s.last()) {
        law_trailing_digits(s.drop_last());
        let t = trailing_digits(s.drop_last());
        if t < s.len() - 1 {
            assert(s.drop_last()[s.len() - 1 - t - 1] == s[s.len() - trailing_digits(s) - 1]);
        }
    }
}

/// The minimum a `-s` value asks for is the decimal number written by all of
/// its trailing digits, whatever stands before them, wherever that number
/// fits in a `usize`; 1 where there are no trailing digits or the number
/// does not fit.
pub proof fn law_special_min(s: Seq<char>)
    ensures
        ({
            let digits = s.skip(s.len() - trailing_digits(s));
            &&& trailing_digits(s) > 0 && decimal_value(digits) <= usize::MAX ==> special_min(s)
                == decimal_value(digits)
            &&& trailing_digits(s) > 0 && decimal_value(digits) > usize::MAX ==> special_min(s)
                == 1
            &&& trailing_digits(s) == 0 ==> special_min(s) == 1
        }),
{
}

/// A single digit written after a `-s` value that does not end in a digit
/// (the empty value among them) is read as that digit.
pub proof fn law_special_min_first_digit(s: Seq<char>, d: char)
    requires
        trailing_digits(s) == 0,
        0x30 <= d as u32 <= 0x39,
    ensures
        special_min(s.push(d)) == d as u32 - 0x30,
{
    let sd = s.push(d);
    assert(sd.drop_last() =~= s);
    assert(trailing_digits(sd) == 1);
    let digits = sd.skip(sd.len() - 1);
    assert(digits =~= seq![d]);
    assert(digits.drop_last() =~= Seq::<char>::empty());
    assert(decimal_value(digits.drop_last()) == 0);
    assert(digits.last() == d);
    assert(decimal_value(digits) == (d as u32 - 0x30) as nat);
}

/// Writing one more digit after a `-s` value that ends in digits multiplies
/// its minimum by ten and adds the digit, wherever the result fits.
pub proof fn law_special_min_append_digit(s: Seq<char>, d: char)
    requires
        trailing_digits(s) > 0,
        0x30 <= d as u32 <= 0x39,
        decimal_value(s.push(d).skip(s.len() + 1 - trailing_digits(s.push(d)))) <= usize::MAX,
    ensures
        special_min(s.push(d)) == 10 * special_min(s) + (d as u32 - 0x30),
{
    let t = trailing_digits(s);
    let sd = s.push(d);
    assert(sd.drop_last() =~= s);
    assert(sd.last() == d);
    assert(trailing_digits(sd) == t + 1);
    lemma_trailing_digits_bound(s);
    let digits = s.skip(s.len() - t);
    let new_digits = sd.skip(sd.len() - (t + 1));
    assert(new_digits.drop_last() =~= digits);
    assert(new_digits.last() == d);
    assert(decimal_value(new_digits) == 10 * decimal_value(digits) + (d as u32 - 0x30) as nat);
}

/// Splits the value of the `-s` flag into its character set and its
/// minimum count: trailing ASCII digits give the count (1 where there are
/// none, or where they overflow a `usize`), and what stands before them the
/// character set (the default set where that is empty).
pub fn parse_special_spec(spec: &str) -> (parsed: (String, usize))
    ensures
        parsed.0@ == special_charset(spec@),
        parsed.1 == special_min(spec@),
        trailing_digits(spec@) > 0 && decimal_value(
            spec@.skip(spec@.len() - trailing_digits(spec@)),
        ) <= usize::MAX ==> parsed.1 == decimal_value(
            spec@.skip(spec@.len() - trailing_digits(spec@)),
        ),
        trailing_digits(spec@) == 0 ==> parsed.1 == 1,
        spec@.len() > trailing_digits(spec@) ==> parsed.0@ == spec@.take(
            spec@.len() - trailing_digits(spec@),
        ),
        spec@.len() == trailing_digits(spec@) ==> parsed.0@ == DEFAULT_SPECIAL_CHARS@,
{
    proof {
        law_special_min(spec@);
        lemma_trailing_digits_bound(spec@);
    }
    let mut chars = str_chars(spec);
    let n = chars.len();
    let mut k: usize = 0;
    assert(chars@.take(n as int) =~= chars@);
    while k < n && is_ascii_digit(chars[n - 1 - k])
        invariant
            k <= n,
            n == chars@.len(),
            chars@ == spec@,
            trailing_digits(chars@) == k + trailing_digits(chars@.take(n - k)),
        decreases n - k,
    {
        let ghost t = chars@.take(n - k);
        assert(t.last() == chars@[n - 1 - k]);
        assert(t.drop_last() =~= chars@.take(n - k - 1));
        k = k + 1;
    }
    let start = n - k;
    proof {
        let t = chars@.take(start as int);
        if start > 0 {
            assert(t.last() == chars@[start - 1]);
        }
        assert(trailing_digits(t) == 0);
        assert(chars@.take(n as int) =~= chars@);
        lemma_trailing_digits_bound(chars@);
    }
    let mut value: usize = 0;
    let mut overflow = false;
    let mut i = start;
    while i < n
        invariant
            start <= i <= n,
            n == chars@.len(),
            start == n - trailing_digits(chars@),
            forall|j: int| start <= j < n ==> is_digit_char(#[trigger] chars@[j]),
            !overflow ==> value == decimal_value(chars@.subrange(start as int, i as int)),
            overflow ==> decimal_value(chars@.subrange(start as int, i as int)) > usize::MAX,
        decreases n - i,
    {
        let ghost prev = chars@.subrange(start as int, i as int);
        let ghost next = chars@.subrange(start as int, i + 1);
        assert(next.drop_last() =~= prev);
        assert(next.last() == chars@[i as int]);
        assert(is_digit_char(chars@[i as int]));
        let d = (chars[i] as u32 - 0x30) as usize;
        if !overflow {
            match value.checked_mul(10) {
                Some(tens) => match tens.checked_add(d) {
                    Some(v) => {
                        value = v;
                    },
                    None => {
                        overflow = true;
                    },
                },
                None => {
                    overflow = true;
                },
            }
        }
        i = i + 1;
    }
    proof {
        assert(chars@.subrange(start as int, n as int) =~= chars@.skip(start as int));
    }
    let min = if k == 0 || overflow {
        1
    } else {
        value
    };
    let charset = if start == 0 {
        DEFAULT_SPECIAL_CHARS.to_owned()
    } else {
        chars.truncate(start);
        chars_to_string(chars)
    };
    (charset, min)
}

/// The character set of a `-s` value is never empty.
pub proof fn lemma_special_charset_nonempty(spec: Seq<char>)
    ensures
        special_charset(spec).len() > 0,
{
    reveal_strlit("!@#$%^&*()-_=+");
}

/// The options that secret generation runs with: with no class flag at all,
/// one upper-case letter, one lower-case letter and one digit at least and
/// no special characters; otherwise the flags as given, with the `-s` value
/// split into character set and minimum.
pub fn resolve_generate_options(
    uppercase: Option<usize>,
    lowercase: Option<usize>,
    digits: Option<usize>,
    special: Option<&str>,
) -> (options: (Option<usize>, Option<usize>, Option<usize>, Option<(String, usize)>))
    ensures
        uppercase is None && lowercase is None && digits is None && special is None ==> {
            &&& options.0 == Some(1usize)
            &&& options.1 == Some(1usize)
            &&& options.2 == Some(1usize)
            &&& options.3 is None
        },
        !(uppercase is None && lowercase is None && digits is None && special is None) ==> {
            &&& options.0 == uppercase
            &&& options.1 == lowercase
            &&& options.2 == digits
            &&& match special {
                None => options.3 is None,
                Some(s) => options.3 matches Some((cs, m)) && cs@ == special_charset(s@) && m
                    == special_min(s@),
            }
        },
{
    if uppercase.is_none() && lowercase.is_none() && digits.is_none() && special.is_none() {
        (Some(1), Some(1), Some(1), None)
    } else {
        let parsed = match special {
            Some(s) => Some(parse_special_spec(s)),
            None => None,
        };
        (uppercase, lowercase, digits, parsed)
    }
}

/// Resolved options always meet what secret generation asks of its
/// character sets: a special set is never empty, and some class is always
/// requested.
pub proof fn lemma_resolved_options_generate(
    uppercase: Option<usize>,
    lowercase: Option<usize>,
    digits: Option<usize>,
    special: Option<Seq<char>>,
    options: (Option<usize>, Option<usize>, Option<usize>, Option<(String, usize)>),
)
    requires
        uppercase is None && lowercase is None && digits is None && special is None ==> {
            &&& options.0 == Some(1usize)
            &&& options.1 == Some(1usize)
            &&& options.2 == Some(1usize)
            &&& options.3 is None
        },
        !(uppercase is None && lowercase is None && digits is None && special is None) ==> {
            &&& options.0 == uppercase
            &&& options.1 == lowercase
            &&& options.2 == digits
            &&& match special {
                None => options.3 is None,
                Some(s) => options.3 matches Some((cs, m)) && cs@ == special_charset(s)
                    && m == special_min(s),
            }
        },
    ensures
        options.3 matches Some((cs, m)) ==> cs@.len() > 0,
        pool_nonempty(options.0, options.1, options.2, options.3),
{
    if let Some(s) = special {
        lemma_special_charset_nonempty(s);
    }
}

} // verus!
