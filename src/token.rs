//! Random tokens: the only handle a caller holds on a pending or finished answer.

use rand::Rng;

use vstd::prelude::*;

verus! {

/// Number of random symbols in a typed token.
pub const TOKEN_LENGTH: usize = 20;

/// The symbols a typed token is drawn from, as ASCII bytes: `a` to `z`, then `1` to `9`.
pub const TOKEN_CHARSET: [u8; 35] = [
    97, 98, 99, 100, 101, 102, 103, 104, 105, 106, 107, 108, 109,
    110, 111, 112, 113, 114, 115, 116, 117, 118, 119, 120, 121, 122,
    49, 50, 51, 52, 53, 54, 55, 56, 57,
];

/// The same symbols as characters, for tokens written as strings.
pub const TOKEN_ALPHABET: [char; 35] = [
    'a', 'b', 'c', 'd', 'e', 'f', 'g', 'h', 'i', 'j', 'k', 'l', 'm',
    'n', 'o', 'p', 'q', 'r', 's', 't', 'u', 'v', 'w', 'x', 'y', 'z',
    '1', '2', '3', '4', '5', '6', '7', '8', '9',
];

/// Relies on rand's `Rng::random_range` on the thread-local generator: a value
/// in `0..n`. It panics on an empty range, hence `n > 0`.
#[verifier::external_body]
pub(crate) fn random_below(n: usize) -> (r: usize)
    requires
        n > 0,
    ensures
        r < n,
{
    rand::rng().random_range(0..n)
}

/// std's `String::push` appends one character.
pub assume_specification[ String::push ](s: &mut String, ch: char)
    ensures
        final(s)@ == old(s)@.push(ch),
;

/// Every character of `s` is one of `alphabet`.
pub open spec fn drawn_from(s: Seq<char>, alphabet: Seq<char>) -> bool {
    forall|i: int| 0 <= i < s.len() ==> alphabet.contains(#[trigger] s[i])
}

/// Every draw is below `n`.
pub open spec fn draws_below(draws: Seq<usize>, n: nat) -> bool {
    forall|i: int| 0 <= i < draws.len() ==> #[trigger] draws[i] < n
}

/// The symbols that `draws` pick out of `alphabet`, in order.
pub open spec fn picked<T>(alphabet: Seq<T>, draws: Seq<usize>) -> Seq<T> {
    draws.map_values(|d: usize| alphabet[d as int])
}

/// `len` random draws, each below `n`.
pub fn random_draws(n: usize, len: usize) -> (r: Vec<usize>)
    requires
        n > 0,
    ensures
        r@.len() == len,
        draws_below(r@, n as nat),
{
    let mut out: Vec<usize> = Vec::new();
    let mut i: usize = 0;
    while i < len
        invariant
            n > 0,
            i <= len,
            out@.len() == i,
            draws_below(out@, n as nat),
        decreases len - i,
    {
        out.push(random_below(n));
        i = i + 1;
    }
    out
}

/// The string of the symbols that `draws` pick out of `alphabet`.
pub fn symbols_from_draws(alphabet: &[char], draws: &Vec<usize>) -> (r: String)
    requires
        draws_below(draws@, alphabet@.len()),
    ensures
        r@ == picked(alphabet@, draws@),
{
    let mut out = String::new();
    let mut i: usize = 0;
    while i < draws.len()
        invariant
            draws_below(draws@, alphabet@.len()),
            i <= draws@.len(),
            out@ == picked(alphabet@, draws@.take(i as int)),
        decreases draws@.len() - i,
    {
        let c = alphabet[draws[i]];
        out.push(c);
        assert(draws@.take(i + 1) == draws@.take(i as int).push(draws@[i as int]));
        i = i + 1;
    }
    assert(draws@.take(draws@.len() as int) == draws@);
    out
}

/// What a token is issued for.
#[derive(Debug, Clone, Copy, PartialEq, Eq, Hash, PartialOrd, Ord)]
pub enum TokenType {
    Answer,
}

/// A typed token: its kind and a fixed number of random symbols.
#[derive(Debug, Clone, PartialEq, Eq, Hash, Copy)]
pub struct Token {
    pub token_type: TokenType,
    pub token: [u8; TOKEN_LENGTH],
}

impl Token {
    /// The bytes that `draws` pick out of the charset.
    pub fn bytes_from_draws(draws: &Vec<usize>) -> (r: [u8; TOKEN_LENGTH])
        requires
            draws@.len() == TOKEN_LENGTH,
            draws_below(draws@, 35),
        ensures
            r@ == picked(TOKEN_CHARSET@, draws@),
    {
        let mut buf = [0u8; TOKEN_LENGTH];
        let mut i: usize = 0;
        while i < TOKEN_LENGTH
            invariant
                i <= TOKEN_LENGTH,
                draws@.len() == TOKEN_LENGTH,
                draws_below(draws@, 35),
                forall|j: int| 0 <= j < i ==> buf@[j] == TOKEN_CHARSET@[#[trigger] draws@[j] as int],
            decreases TOKEN_LENGTH - i,
        {
            buf[i] = TOKEN_CHARSET[draws[i]];
            i = i + 1;
        }
        assert(buf@ =~= picked(TOKEN_CHARSET@, draws@));
        buf
    }

    fn random_bytes() -> (r: [u8; TOKEN_LENGTH])
        ensures
            forall|i: int| 0 <= i < TOKEN_LENGTH ==> TOKEN_CHARSET@.contains(#[trigger] r@[i]),
    {
        let draws = random_draws(TOKEN_CHARSET.len(), TOKEN_LENGTH);
        let r = Self::bytes_from_draws(&draws);
        assert forall|i: int| 0 <= i < TOKEN_LENGTH implies TOKEN_CHARSET@.contains(#[trigger] r@[i]) by {
            assert(r@[i] == TOKEN_CHARSET@[draws@[i] as int]);
        }
        r
    }

    pub fn new(token_type: TokenType) -> (r: Self)
        ensures
            r.token_type == token_type,
            forall|i: int| 0 <= i < TOKEN_LENGTH ==> TOKEN_CHARSET@.contains(#[trigger] r.token@[i]),
    {
        Self { token_type: token_type, token: Self::random_bytes() }
    }
}

/// The character a token of this type starts with.
pub open spec fn type_prefix(t: TokenType) -> char {
    match t {
        TokenType::Answer => 'a',
    }
}

/// A token as a string from its random draws: the type's prefix, a `0`,
/// then the symbols the draws pick.
pub fn token_string_from_draws(t: TokenType, draws: &Vec<usize>) -> (r: String)
    requires
        draws_below(draws@, 35),
    ensures
        r@ == seq![type_prefix(t), '0'] + picked(TOKEN_ALPHABET@, draws@),
{
    let symbols = symbols_from_draws(&TOKEN_ALPHABET, draws);
    let prefix = match t {
        TokenType::Answer => 'a',
    };
    let mut out = String::new();
    out.push(prefix);
    out.push('0');
    out.append(symbols.as_str());
    assert(out@ =~= seq![type_prefix(t), '0'] + picked(TOKEN_ALPHABET@, draws@));
    out
}

/// A token as a string: the type's prefix, a `0`, then random symbols.
pub fn generate_token(t: TokenType) -> (r: String)
    ensures
        r@.len() == 2 + TOKEN_LENGTH,
        r@[0] == type_prefix(t),
        r@[1] == '0',
        drawn_from(r@.skip(2), TOKEN_ALPHABET@),
{
    let draws = random_draws(TOKEN_ALPHABET.len(), TOKEN_LENGTH);
    let r = token_string_from_draws(t, &draws);
    assert forall|i: int| 0 <= i < r@.skip(2).len() implies TOKEN_ALPHABET@.contains(
        #[trigger] r@.skip(2)[i],
    ) by {
        assert(r@.skip(2)[i] == TOKEN_ALPHABET@[draws@[i] as int]);
    }
    r
}

} // verus!
