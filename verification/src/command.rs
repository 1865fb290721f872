//! The line protocol's commands: whitespace-separated tokens, the first
//! naming the operation, the rest carrying the raw key and value bytes.

use vstd::prelude::*;
use vstd::slice::{slice_subrange, slice_to_vec};

verus! {

pub enum Command {
    Get(Vec<u8>),
    Insert(Vec<u8>, Vec<u8>),
    Delete(Vec<u8>),
    Update(Vec<u8>, Vec<u8>),
    NotSupported,
}

/// The model of a parsed command.
pub enum CommandView {
    Get(Seq<u8>),
    Insert(Seq<u8>, Seq<u8>),
    Delete(Seq<u8>),
    Update(Seq<u8>, Seq<u8>),
    NotSupported,
}

impl View for Command {
    type V = CommandView;

    open spec fn view(&self) -> CommandView {
        match self {
            Command::Get(k) => CommandView::Get(k@),
            Command::Insert(k, v) => CommandView::Insert(k@, v@),
            Command::Delete(k) => CommandView::Delete(k@),
            Command::Update(k, v) => CommandView::Update(k@, v@),
            Command::NotSupported => CommandView::NotSupported,
        }
    }
}

/// A byte that separates tokens.
pub open spec fn is_ws(b: u8) -> bool {
    b == 32 || b == 9 || b == 10 || b == 13
}

/// The whitespace-separated tokens of the input.
pub open spec fn spec_tokens(s: Seq<u8>) -> Seq<Seq<u8>>
    decreases s.len(),
    via spec_tokens_dec
{
    if s.len() == 0 {
        Seq::empty()
    } else if is_ws(s[0]) {
        spec_tokens(s.drop_first())
    } else {
        let t = token_len(s);
        seq![s.take(t)] + spec_tokens(s.skip(t))
    }
}

#[via_fn]
proof fn spec_tokens_dec(s: Seq<u8>) {
    if s.len() > 0 && !is_ws(s[0]) {
        lemma_token_len_bounds(s);
    }
}

/// A token at the head of a non-blank input has at least one byte and at
/// most all of them.
pub proof fn lemma_token_len_bounds(s: Seq<u8>)
    requires
        s.len() > 0,
        !is_ws(s[0]),
    ensures
        1 <= token_len(s) <= s.len(),
    decreases s.len(),
{
    let t = s.drop_first();
    if t.len() > 0 && !is_ws(t[0]) {
        lemma_token_len_bounds(t);
    } else {
        assert(token_len(t) >= 0) by {
            lemma_token_len_nonneg(t);
        }
    }
    lemma_token_len_nonneg(t);
    lemma_token_len_le(t);
}

proof fn lemma_token_len_nonneg(s: Seq<u8>)
    ensures
        token_len(s) >= 0,
    decreases s.len(),
{
    if s.len() > 0 && !is_ws(s[0]) {
        lemma_token_len_nonneg(s.drop_first());
    }
}

proof fn lemma_token_len_le(s: Seq<u8>)
    ensures
        token_len(s) <= s.len(),
    decreases s.len(),
{
    if s.len() > 0 && !is_ws(s[0]) {
        lemma_token_len_le(s.drop_first());
    }
}

/// The length of the token at the head of the input.
pub open spec fn token_len(s: Seq<u8>) -> int
    decreases s.len(),
{
    if s.len() == 0 || is_ws(s[0]) {
        0
    } else {
        1 + token_len(s.drop_first())
    }
}

/// What an input line means.
pub open spec fn spec_parse(s: Seq<u8>) -> CommandView {
    let ts = spec_tokens(s);
    if ts.len() >= 2 && ts[0] == ("get")@.map_values(|c: char| c as u8) {
        CommandView::Get(ts[1])
    } else if ts.len() >= 3 && ts[0] == ("insert")@.map_values(|c: char| c as u8) {
        CommandView::Insert(ts[1], ts[2])
    } else if ts.len() >= 3 && ts[0] == ("update")@.map_values(|c: char| c as u8) {
        CommandView::Update(ts[1], ts[2])
    } else if ts.len() >= 2 && ts[0] == ("delete")@.map_values(|c: char| c as u8) {
        CommandView::Delete(ts[1])
    } else {
        CommandView::NotSupported
    }
}

impl Command {
    /// Splits the line into tokens and reads the leading operation name.
    /// A line whose first token is none of the four operations, or that
    /// lacks the operation's arguments, is not a supported command.
    pub fn parse(input: &[u8]) -> (r: Command)
        ensures
            r@ == spec_parse(input@),
    {
        let tokens: Vec<Vec<u8>> = tokenize(input);
        let n: usize = tokens.len();
        proof {
            reveal_strlit("get");
            reveal_strlit("insert");
            reveal_strlit("update");
            reveal_strlit("delete");
            assert(("get")@.map_values(|c: char| c as u8) =~= seq![103u8, 101u8, 116u8]);
            assert(("insert")@.map_values(|c: char| c as u8) =~= seq![
                105u8,
                110u8,
                115u8,
                101u8,
                114u8,
                116u8,
            ]);
            assert(("update")@.map_values(|c: char| c as u8) =~= seq![
                117u8,
                112u8,
                100u8,
                97u8,
                116u8,
                101u8,
            ]);
            assert(("delete")@.map_values(|c: char| c as u8) =~= seq![
                100u8,
                101u8,
                108u8,
                101u8,
                116u8,
                101u8,
            ]);
        }
        if n == 0 {
            return Command::NotSupported;
        }
        let head: &Vec<u8> = &tokens[0];
        if n >= 2 && byte_str_eq(head.as_slice(), &[103u8, 101u8, 116u8]) {
            return Command::Get(tokens[1].clone());
        }
        if n >= 3 && byte_str_eq(head.as_slice(), &[105u8, 110u8, 115u8, 101u8, 114u8, 116u8]) {
            return Command::Insert(tokens[1].clone(), tokens[2].clone());
        }
        if n >= 3 && byte_str_eq(head.as_slice(), &[117u8, 112u8, 100u8, 97u8, 116u8, 101u8]) {
            return Command::Update(tokens[1].clone(), tokens[2].clone());
        }
        if n >= 2 && byte_str_eq(head.as_slice(), &[100u8, 101u8, 108u8, 101u8, 116u8, 101u8]) {
            return Command::Delete(tokens[1].clone());
        }
        Command::NotSupported
    }
}

fn byte_str_eq(a: &[u8], b: &[u8]) -> (r: bool)
    ensures
        r == (a@ == b@),
{
    crate::keys::key_eq(a, b)
}

/// Splits the input at whitespace.
fn tokenize(input: &[u8]) -> (r: Vec<Vec<u8>>)
    ensures
        r@.map_values(|t: Vec<u8>| t@) == spec_tokens(input@),
    decreases input@.len(),
{
    let n: usize = input.len();
    if n == 0 {
        let r: Vec<Vec<u8>> = Vec::new();
        proof {
            assert(r@.map_values(|t: Vec<u8>| t@) =~= spec_tokens(input@));
        }
        return r;
    }
    let b0: u8 = input[0];
    if b0 == 32 || b0 == 9 || b0 == 10 || b0 == 13 {
        let rest = slice_subrange(input, 1, n);
        proof {
            assert(rest@ =~= input@.drop_first());
        }
        return tokenize(rest);
    }
    let t: usize = head_token_len(input);
    let tok: Vec<u8> = slice_to_vec(slice_subrange(input, 0, t));
    let rest = slice_subrange(input, t, n);
    proof {
        assert(rest@ =~= input@.skip(t as int));
        assert(tok@ =~= input@.take(t as int));
    }
    let mut tail: Vec<Vec<u8>> = tokenize(rest);
    let ghost tail0 = tail@;
    tail.insert(0, tok);
    proof {
        assert(tail@.map_values(|x: Vec<u8>| x@) =~= seq![input@.take(t as int)]
            + tail0.map_values(|x: Vec<u8>| x@));
    }
    tail
}

/// The length of the token at the head of the input, by scanning.
fn head_token_len(input: &[u8]) -> (r: usize)
    requires
        input@.len() > 0,
        !is_ws(input@[0]),
    ensures
        1 <= r <= input@.len(),
        r == token_len(input@),
    decreases input@.len(),
{
    let n: usize = input.len();
    let mut i: usize = 0;
    proof {
        lemma_token_len_scan(input@, 0);
    }
    while i < n
        invariant
            i <= n,
            n == input@.len(),
            n > 0,
            !is_ws(input@[0]),
            forall|j: int| 0 <= j < i ==> !is_ws(#[trigger] input@[j]),
            token_len(input@) == i + token_len(input@.skip(i as int)),
        decreases n - i,
    {
        let b: u8 = input[i];
        if b == 32 || b == 9 || b == 10 || b == 13 {
            proof {
                assert(input@.skip(i as int)[0] == input@[i as int]);
                assert(token_len(input@.skip(i as int)) == 0);
                assert(i != 0);
            }
            return i;
        }
        proof {
            let s = input@.skip(i as int);
            assert(s[0] == input@[i as int]);
            assert(!is_ws(s[0]));
            assert(s.drop_first() =~= input@.skip(i as int + 1));
            assert(token_len(s) == 1 + token_len(input@.skip(i as int + 1)));
        }
        i = i + 1;
    }
    proof {
        assert(input@.skip(n as int).len() == 0);
        assert(token_len(input@.skip(n as int)) == 0);
    }
    n
}

/// Scanning starts with the whole token ahead.
proof fn lemma_token_len_scan(s: Seq<u8>, i: int)
    requires
        i == 0,
    ensures
        token_len(s) == i + token_len(s.skip(i)),
{
    assert(s.skip(0) =~= s);
}

} // verus!
