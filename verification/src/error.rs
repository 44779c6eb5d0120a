//! The error taxonomy of the service: a rejected search term, a failed
//! lookup, and opaque storage failures — each with its canonical plain-text
//! message and status code.

use vstd::prelude::*;
use vstd::string::StringExecFns;

verus! {

/// The value of one hexadecimal digit, as a lower-case character.
pub open spec fn hex_char_of(d: int) -> char {
    if d == 0 {
        '0'
    } else if d == 1 {
        '1'
    } else if d == 2 {
        '2'
    } else if d == 3 {
        '3'
    } else if d == 4 {
        '4'
    } else if d == 5 {
        '5'
    } else if d == 6 {
        '6'
    } else if d == 7 {
        '7'
    } else if d == 8 {
        '8'
    } else if d == 9 {
        '9'
    } else if d == 10 {
        'a'
    } else if d == 11 {
        'b'
    } else if d == 12 {
        'c'
    } else if d == 13 {
        'd'
    } else if d == 14 {
        'e'
    } else {
        'f'
    }
}

pub open spec fn pow16(k: nat) -> int
    decreases k,
{
    if k == 0 {
        1
    } else {
        16 * pow16((k - 1) as nat)
    }
}

proof fn lemma_pow16_pos(k: nat)
    ensures
        pow16(k) >= 1,
    decreases k,
{
    if k > 0 {
        lemma_pow16_pos((k - 1) as nat);
    }
}

/// The `k`-th hexadecimal digit of `v`, counting from the least
/// significant.
pub open spec fn nibble(v: u128, k: nat) -> int {
    (v as int / pow16(k)) % 16
}

/// The canonical hyphenated identifier form puts a hyphen at these
/// positions.
pub open spec fn uuid_hyphen_at(i: int) -> bool {
    i == 8 || i == 13 || i == 18 || i == 23
}

/// How many hyphens come before position `i`.
pub open spec fn hyphens_before(i: int) -> int {
    if i <= 8 {
        0
    } else if i <= 13 {
        1
    } else if i <= 18 {
        2
    } else if i <= 23 {
        3
    } else {
        4
    }
}

/// The canonical lower-case hexadecimal form of a 128-bit identifier:
/// 32 digits, most significant first, in groups of 8-4-4-4-12 separated
/// by hyphens.
pub open spec fn uuid_chars(v: u128) -> Seq<char> {
    Seq::new(
        36,
        |i: int|
            if uuid_hyphen_at(i) {
                '-'
            } else {
                hex_char_of(nibble(v, (31 - (i - hyphens_before(i))) as nat))
            },
    )
}

/// Append one hexadecimal digit to the string.
fn push_hex_digit(s: &mut String, d: u8)
    requires
        d < 16,
    ensures
        final(s)@ == old(s)@.push(hex_char_of(d as int)),
{
    let digit: &'static str = if d == 0 {
        "0"
    } else if d == 1 {
        "1"
    } else if d == 2 {
        "2"
    } else if d == 3 {
        "3"
    } else if d == 4 {
        "4"
    } else if d == 5 {
        "5"
    } else if d == 6 {
        "6"
    } else if d == 7 {
        "7"
    } else if d == 8 {
        "8"
    } else if d == 9 {
        "9"
    } else if d == 10 {
        "a"
    } else if d == 11 {
        "b"
    } else if d == 12 {
        "c"
    } else if d == 13 {
        "d"
    } else if d == 14 {
        "e"
    } else {
        "f"
    };
    proof {
        reveal_strlit("0");
        reveal_strlit("1");
        reveal_strlit("2");
        reveal_strlit("3");
        reveal_strlit("4");
        reveal_strlit("5");
        reveal_strlit("6");
        reveal_strlit("7");
        reveal_strlit("8");
        reveal_strlit("9");
        reveal_strlit("a");
        reveal_strlit("b");
        reveal_strlit("c");
        reveal_strlit("d");
        reveal_strlit("e");
        reveal_strlit("f");
        assert(digit@ =~= seq![hex_char_of(d as int)]);
    }
    s.append(digit);
    proof {
        assert(final(s)@ =~= old(s)@.push(hex_char_of(d as int)));
    }
}

/// The canonical hyphenated form of a 128-bit identifier.
pub fn uuid_string(v: u128) -> (s: String)
    ensures
        s@ == uuid_chars(v),
{
    let mut digits: Vec<u8> = Vec::new();
    let mut x = v;
    for k in 0..32usize
        invariant
            digits@.len() == k,
            x as int == v as int / pow16(k as nat),
            forall|j: int| 0 <= j < k ==> #[trigger] digits@[j] as int == nibble(v, j as nat),
            forall|j: int| 0 <= j < k ==> #[trigger] digits@[j] < 16,
    {
        proof {
            lemma_pow16_pos(k as nat);
            assert((x % 16) as int == nibble(v, k as nat));
            vstd::arithmetic::div_mod::lemma_div_denominator(v as int, pow16(k as nat), 16);
            assert((x / 16) as int == v as int / pow16((k + 1) as nat));
        }
        digits.push((x % 16) as u8);
        x = x / 16;
    }
    let mut s = String::new();
    let mut k: usize = 32;
    for i in 0..36usize
        invariant
            k as int == 32 - (i as int - hyphens_before(i as int)),
            s@ =~= uuid_chars(v).take(i as int),
            digits@.len() == 32,
            forall|j: int| 0 <= j < 32 ==> #[trigger] digits@[j] as int == nibble(v, j as nat),
            forall|j: int| 0 <= j < 32 ==> #[trigger] digits@[j] < 16,
    {
        if i == 8 || i == 13 || i == 18 || i == 23 {
            proof {
                reveal_strlit("-");
            }
            s.append("-");
            proof {
                assert(uuid_chars(v)[i as int] == '-');
                assert(s@ =~= uuid_chars(v).take(i as int + 1));
            }
        } else {
            k = k - 1;
            let d = digits[k];
            push_hex_digit(&mut s, d);
            proof {
                assert(k as int == 31 - (i as int - hyphens_before(i as int)));
                assert(uuid_chars(v)[i as int] == hex_char_of(nibble(v, k as nat)));
                assert(s@ =~= uuid_chars(v).take(i as int + 1));
            }
        }
    }
    proof {
        assert(uuid_chars(v).take(36) =~= uuid_chars(v));
    }
    s
}

/// What can go wrong while serving a request, as far as clients see it.
#[derive(Debug)]
pub enum ApiError {
    /// The search term has fewer than two characters.
    Validation,
    /// No concept carries the requested identifier.
    ConceptNotFound(u128),
    /// No module carries the requested identifier.
    ModuleNotFound(u128),
    /// An opaque storage or transport failure, with its description.
    Internal(String),
}

/// The canonical plain-text message of each error.
pub open spec fn spec_message(e: ApiError) -> Seq<char> {
    match e {
        ApiError::Validation => "Search term must consist of at least 2 characters"@,
        ApiError::ConceptNotFound(id) => "No concept found with id: "@ + uuid_chars(id),
        ApiError::ModuleNotFound(id) => "No module found with id: "@ + uuid_chars(id),
        ApiError::Internal(d) => "Something went wrong: "@ + d@,
    }
}

/// The status code each error is reported under.
pub open spec fn spec_status(e: ApiError) -> u16 {
    match e {
        ApiError::Validation => 400,
        ApiError::ConceptNotFound(_) => 404,
        ApiError::ModuleNotFound(_) => 404,
        ApiError::Internal(_) => 500,
    }
}

impl ApiError {
    /// The plain-text message reported to the client.
    pub fn message(&self) -> (m: String)
        ensures
            m@ == spec_message(*self),
    {
        match self {
            ApiError::Validation => String::from_str(
                "Search term must consist of at least 2 characters",
            ),
            ApiError::ConceptNotFound(id) => {
                let mut m = String::from_str("No concept found with id: ");
                let u = uuid_string(*id);
                m.append(u.as_str());
                m
            },
            ApiError::ModuleNotFound(id) => {
                let mut m = String::from_str("No module found with id: ");
                let u = uuid_string(*id);
                m.append(u.as_str());
                m
            },
            ApiError::Internal(d) => {
                let mut m = String::from_str("Something went wrong: ");
                m.append(d.as_str());
                m
            },
        }
    }

    /// The status code the boundary reports for this error.
    pub fn status_code(&self) -> (code: u16)
        ensures
            code == spec_status(*self),
    {
        match self {
            ApiError::Validation => 400,
            ApiError::ConceptNotFound(_) => 404,
            ApiError::ModuleNotFound(_) => 404,
            ApiError::Internal(_) => 500,
        }
    }
}

} // verus!
