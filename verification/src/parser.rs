//! Tokenizing of infix Boolean formulas and conversion to post-order (RPN)
//! token streams, plus the session object that keeps every formula entered
//! so far together with the shared first-seen variable ordering.

use vstd::prelude::*;

verus! {

use crate::ordering_map::{
    entries_has_key, map_entries, ordering_contains, ordering_insert, ordering_len,
};
use linked_hash_map::LinkedHashMap;

/// A Boolean connective. `NOT` is unary; the others are binary.
#[derive(Debug, PartialEq, Eq, Structural, Copy, Clone)]
pub enum Operator {
    AND,
    OR,
    XOR,
    NOT,
}

/// One lexical token of a formula. `VAL` only appears in streams that have
/// had variables substituted by constants.
#[derive(Debug, PartialEq, Eq, Structural, Copy, Clone)]
pub enum Token {
    VAR(char),
    LParen,
    RParen,
    OP(Operator),
    VAL(bool),
}

/// One parsed formula: its infix token stream and the post-order (RPN)
/// stream derived from it.
pub struct Tokenized {
    pub rpn: Vec<Token>,
    pub tokens: Vec<Token>,
}

/// A parsing session: the raw formula strings entered so far, their parsed
/// forms, and the shared first-seen variable ordering (symbol to zero-based
/// position, dense, in insertion order).
pub struct Parser {
    pub raw_exprs: Vec<String>,
    pub exprs: Vec<Tokenized>,
    pub ast_order: LinkedHashMap<char, usize>,
}

/// A parsing failure: a character that is neither an operator, a space nor
/// an alphabetic variable name, or an unmatched parenthesis.
#[derive(Debug, PartialEq, Eq, Structural, Copy, Clone)]
pub enum ParseError {
    InvalidCharacter(char),
    UnclosedLeftParen,
    UnclosedRightParen,
}

/// An ASCII letter, the only admissible variable name.
pub open spec fn is_alpha(c: char) -> bool {
    (97 <= c as u32 <= 122) || (65 <= c as u32 <= 90)
}

/// One of the seven operator characters.
pub open spec fn is_op_char(c: char) -> bool {
    c == '&' || c == '|' || c == '^' || c == '!' || c == '~' || c == '(' || c == ')'
}

/// The token of a single non-space character, or `None` for a character
/// that no token stands for.
pub open spec fn char_token(c: char) -> Option<Token> {
    if c == '&' {
        Some(Token::OP(Operator::AND))
    } else if c == '|' {
        Some(Token::OP(Operator::OR))
    } else if c == '^' {
        Some(Token::OP(Operator::XOR))
    } else if c == '!' || c == '~' {
        Some(Token::OP(Operator::NOT))
    } else if c == '(' {
        Some(Token::LParen)
    } else if c == ')' {
        Some(Token::RParen)
    } else if is_alpha(c) {
        Some(Token::VAR(c))
    } else {
        None
    }
}

/// The token stream of a string: spaces are skipped, every other character
/// must map to a token.
pub open spec fn spec_tokenize_from(s: Seq<char>, i: int, acc: Seq<Token>) -> Option<Seq<Token>>
    decreases s.len() - i,
{
    if i < 0 || i >= s.len() {
        Some(acc)
    } else if s[i] == ' ' {
        spec_tokenize_from(s, i + 1, acc)
    } else {
        match char_token(s[i]) {
            Some(t) => spec_tokenize_from(s, i + 1, acc.push(t)),
            None => None,
        }
    }
}

/// The token stream of a whole string, if every character is admissible.
pub open spec fn spec_tokenize(s: Seq<char>) -> Option<Seq<Token>> {
    spec_tokenize_from(s, 0, Seq::empty())
}

/// On a closing parenthesis, operators are popped to the output until the
/// matching opener (which is discarded); an empty stack means the
/// parenthesis had no opener.
pub open spec fn spec_rpn_flush_paren(stack: Seq<Token>, rpn: Seq<Token>) -> Result<
    (Seq<Token>, Seq<Token>),
    ParseError,
>
    decreases stack.len(),
{
    if stack.len() == 0 {
        Err(ParseError::UnclosedRightParen)
    } else {
        match stack.last() {
            Token::OP(o) => spec_rpn_flush_paren(stack.drop_last(), rpn.push(Token::OP(o))),
            _ => Ok((stack.drop_last(), rpn)),
        }
    }
}

/// Before a binary operator is stacked, pending negations are flushed to
/// the output.
pub open spec fn spec_rpn_pop_nots(stack: Seq<Token>, rpn: Seq<Token>) -> (Seq<Token>, Seq<Token>)
    decreases stack.len(),
{
    if stack.len() > 0 && stack.last() == Token::OP(Operator::NOT) {
        spec_rpn_pop_nots(stack.drop_last(), rpn.push(Token::OP(Operator::NOT)))
    } else {
        (stack, rpn)
    }
}

/// At the end of the stream the remaining operators are appended in stack
/// order; a remaining opening parenthesis was never closed.
pub open spec fn spec_rpn_final(stack: Seq<Token>, rpn: Seq<Token>) -> Result<
    Seq<Token>,
    ParseError,
>
    decreases stack.len(),
{
    if stack.len() == 0 {
        Ok(rpn)
    } else if stack.last() == Token::LParen {
        Err(ParseError::UnclosedLeftParen)
    } else {
        spec_rpn_final(stack.drop_last(), rpn.push(stack.last()))
    }
}

/// The post-order conversion: variables go straight to the output,
/// `NOT` and parentheses are stacked, a binary operator first flushes
/// pending negations.
pub open spec fn spec_rpn_from(
    tokens: Seq<Token>,
    i: int,
    stack: Seq<Token>,
    rpn: Seq<Token>,
) -> Result<Seq<Token>, ParseError>
    decreases tokens.len() - i,
{
    if i < 0 || i >= tokens.len() {
        spec_rpn_final(stack, rpn)
    } else {
        match tokens[i] {
            Token::LParen => spec_rpn_from(tokens, i + 1, stack.push(Token::LParen), rpn),
            Token::OP(Operator::NOT) => spec_rpn_from(
                tokens,
                i + 1,
                stack.push(Token::OP(Operator::NOT)),
                rpn,
            ),
            Token::VAR(c) => spec_rpn_from(tokens, i + 1, stack, rpn.push(Token::VAR(c))),
            Token::RParen => match spec_rpn_flush_paren(stack, rpn) {
                Ok(sr) => spec_rpn_from(tokens, i + 1, sr.0, sr.1),
                Err(e) => Err(e),
            },
            t => ({
                let sr = spec_rpn_pop_nots(stack, rpn);
                spec_rpn_from(tokens, i + 1, sr.0.push(t), sr.1)
            }),
        }
    }
}

/// The post-order form of a whole token stream.
pub open spec fn spec_rpn(tokens: Seq<Token>) -> Result<Seq<Token>, ParseError> {
    spec_rpn_from(tokens, 0, Seq::empty(), Seq::empty())
}

/// A string parses completely: it tokenizes and converts to post-order.
pub open spec fn spec_parse_ok(s: Seq<char>) -> bool {
    match spec_tokenize(s) {
        Some(tokens) => spec_rpn(tokens) is Ok,
        None => false,
    }
}

/// The first character of the string (from index `i` on) that is neither
/// a space nor maps to a token; a space if there is none.
pub open spec fn first_bad_char_from(s: Seq<char>, i: int) -> char
    decreases s.len() - i,
{
    if i < 0 || i >= s.len() {
        ' '
    } else if s[i] == ' ' || char_token(s[i]) is Some {
        first_bad_char_from(s, i + 1)
    } else {
        s[i]
    }
}

proof fn lemma_first_bad_skip(s: Seq<char>, i: int)
    requires
        0 <= i,
        forall|j: int| 0 <= j < i ==> s[j] == ' ' || char_token(#[trigger] s[j]) is Some,
    ensures
        first_bad_char_from(s, 0) == first_bad_char_from(s, i),
    decreases i,
{
    if i > 0 {
        lemma_first_bad_skip(s, i - 1);
        assert(first_bad_char_from(s, i - 1) == first_bad_char_from(s, i));
    }
}

/// Turns a formula string into tokens. A character that is not a space, an
/// operator or an ASCII letter is rejected, and the first such character
/// is reported.
pub fn tokenize(input: &String) -> (r: Result<Vec<Token>, ParseError>)
    ensures
        match r {
            Ok(v) => spec_tokenize(input@) == Some(v@),
            Err(e) => spec_tokenize(input@) is None && e == ParseError::InvalidCharacter(
                first_bad_char_from(input@, 0),
            ),
        },
{
    let s = input.as_str();
    let n = s.unicode_len();
    let mut tokens: Vec<Token> = Vec::with_capacity(n);
    let mut i: usize = 0;
    while i < n
        invariant
            n == s@.len(),
            s@ == input@,
            0 <= i <= n,
            spec_tokenize_from(input@, i as int, tokens@) == spec_tokenize(input@),
            forall|j: int| 0 <= j < i ==> input@[j] == ' ' || char_token(#[trigger] input@[j]) is Some,
        decreases n - i,
    {
        let c = s.get_char(i);
        match c {
            ' ' => {},
            '&' => tokens.push(Token::OP(Operator::AND)),
            '|' => tokens.push(Token::OP(Operator::OR)),
            '^' => tokens.push(Token::OP(Operator::XOR)),
            '!' | '~' => tokens.push(Token::OP(Operator::NOT)),
            '(' => tokens.push(Token::LParen),
            ')' => tokens.push(Token::RParen),
            c => {
                let code = c as u32;
                if (97 <= code && code <= 122) || (65 <= code && code <= 90) {
                    tokens.push(Token::VAR(c));
                } else {
                    proof {
                        lemma_first_bad_skip(input@, i as int);
                    }
                    return Err(ParseError::InvalidCharacter(c));
                }
            },
        }
        i = i + 1;
    }
    Ok(tokens)
}

/// Converts an infix token stream to post-order. All binary operators
/// share one precedence level; only `NOT` binds tighter.
pub fn convert_rpn(tokens: &Vec<Token>) -> (r: Result<Vec<Token>, ParseError>)
    ensures
        match r {
            Ok(v) => spec_rpn(tokens@) == Ok::<Seq<Token>, ParseError>(v@),
            Err(e) => spec_rpn(tokens@) == Err::<Seq<Token>, ParseError>(e),
        },
{
    let n = tokens.len();
    let mut rpn: Vec<Token> = Vec::with_capacity(n);
    let mut op_stack: Vec<Token> = Vec::with_capacity(n);
    let mut i: usize = 0;
    while i < n
        invariant
            n == tokens@.len(),
            0 <= i <= n,
            spec_rpn_from(tokens@, i as int, op_stack@, rpn@) == spec_rpn(tokens@),
        decreases n - i,
    {
        let token = tokens[i];
        match token {
            Token::LParen => op_stack.push(Token::LParen),
            Token::OP(Operator::NOT) => op_stack.push(Token::OP(Operator::NOT)),
            Token::VAR(c) => rpn.push(Token::VAR(c)),
            Token::RParen => {
                let mut closing = true;
                while closing
                    invariant
                        n == tokens@.len(),
                        0 <= i < n,
                        closing ==> match spec_rpn_flush_paren(op_stack@, rpn@) {
                            Ok(sr) => spec_rpn_from(tokens@, i + 1, sr.0, sr.1) == spec_rpn(
                                tokens@,
                            ),
                            Err(e) => spec_rpn(tokens@) == Err::<Seq<Token>, ParseError>(e),
                        },
                        !closing ==> spec_rpn_from(tokens@, i + 1, op_stack@, rpn@) == spec_rpn(
                            tokens@,
                        ),
                    decreases op_stack@.len() + (if closing {
                        1int
                    } else {
                        0int
                    }),
                {
                    match op_stack.pop() {
                        None => {
                            return Err(ParseError::UnclosedRightParen);
                        },
                        Some(top) => {
                            match top {
                                Token::OP(o) => {
                                    rpn.push(Token::OP(o));
                                },
                                _ => {
                                    closing = false;
                                },
                            }
                        },
                    }
                }
            },
            t => {
                let mut flushing = true;
                while flushing
                    invariant
                        n == tokens@.len(),
                        0 <= i < n,
                        t == tokens@[i as int],
                        !(t is LParen) && !(t is VAR) && !(t is RParen) && t != Token::OP(
                            Operator::NOT,
                        ),
                        flushing ==> ({
                            let sr = spec_rpn_pop_nots(op_stack@, rpn@);
                            spec_rpn_from(tokens@, i + 1, sr.0.push(t), sr.1) == spec_rpn(tokens@)
                        }),
                        !flushing ==> spec_rpn_from(tokens@, i + 1, op_stack@.push(t), rpn@)
                            == spec_rpn(tokens@),
                    decreases op_stack@.len() + (if flushing {
                        1int
                    } else {
                        0int
                    }),
                {
                    if op_stack.len() == 0 {
                        flushing = false;
                    } else {
                        let top = op_stack[op_stack.len() - 1];
                        if matches!(top, Token::OP(Operator::NOT)) {
                            let _popped = op_stack.pop();
                            rpn.push(Token::OP(Operator::NOT));
                        } else {
                            flushing = false;
                        }
                    }
                }
                op_stack.push(t);
            },
        }
        i = i + 1;
    }
    while op_stack.len() > 0
        invariant
            spec_rpn_final(op_stack@, rpn@) == spec_rpn(tokens@),
        decreases op_stack@.len(),
    {
        let top = op_stack[op_stack.len() - 1];
        if matches!(top, Token::LParen) {
            return Err(ParseError::UnclosedLeftParen);
        }
        let _popped = op_stack.pop();
        rpn.push(top);
    }
    Ok(rpn)
}

/// A string parses completely: tokenizing and post-order conversion both
/// succeed.
pub fn parse_expr(input: &String) -> (r: Result<Tokenized, ParseError>)
    ensures
        match r {
            Ok(tk) => spec_tokenize(input@) == Some(tk.tokens@) && spec_rpn(tk.tokens@) == Ok::<
                Seq<Token>,
                ParseError,
            >(tk.rpn@),
            Err(_) => !spec_parse_ok(input@),
        },
        spec_parse_ok(input@) ==> r is Ok,
{
    let tokens = match tokenize(input) {
        Ok(v) => v,
        Err(e) => {
            return Err(e);
        },
    };
    let rpn = match convert_rpn(&tokens) {
        Ok(v) => v,
        Err(e) => {
            return Err(e);
        },
    };
    Ok(Tokenized { rpn, tokens })
}

/// The ordering after scanning one string: each letter seen for the first
/// time is appended with the next free position; spaces, operator
/// characters and known symbols are passed over.
pub open spec fn spec_update_order(entries: Seq<(char, usize)>, s: Seq<char>, i: int) -> Seq<
    (char, usize),
>
    decreases s.len() - i,
{
    if i < 0 || i >= s.len() {
        entries
    } else {
        let c = s[i];
        if c == ' ' || is_op_char(c) || entries_has_key(entries, c) {
            spec_update_order(entries, s, i + 1)
        } else if is_alpha(c) {
            spec_update_order(entries.push((c, entries.len() as usize)), s, i + 1)
        } else {
            spec_update_order(entries, s, i + 1)
        }
    }
}

/// The ordering after scanning a whole batch of strings, in order.
pub open spec fn spec_update_order_all(
    entries: Seq<(char, usize)>,
    inputs: Seq<String>,
    k: int,
) -> Seq<(char, usize)>
    decreases inputs.len() - k,
{
    if k < 0 || k >= inputs.len() {
        entries
    } else {
        spec_update_order_all(spec_update_order(entries, inputs[k]@, 0), inputs, k + 1)
    }
}

/// Every entry's position equals its index: positions are dense and in
/// insertion order.
pub open spec fn entries_dense(s: Seq<(char, usize)>) -> bool {
    forall|k: int| 0 <= k < s.len() ==> (#[trigger] s[k]).1 == k
}

/// No two entries share a symbol.
pub open spec fn entries_keys_distinct(s: Seq<(char, usize)>) -> bool {
    forall|i: int, j: int| 0 <= i < j < s.len() ==> s[i].0 != s[j].0
}

proof fn lemma_update_order_len(entries: Seq<(char, usize)>, s: Seq<char>, i: int)
    ensures
        spec_update_order(entries, s, i).len() >= entries.len(),
    decreases s.len() - i,
{
    if 0 <= i < s.len() {
        let c = s[i];
        if c == ' ' || is_op_char(c) || entries_has_key(entries, c) {
            lemma_update_order_len(entries, s, i + 1);
        } else if is_alpha(c) {
            lemma_update_order_len(entries.push((c, entries.len() as usize)), s, i + 1);
        } else {
            lemma_update_order_len(entries, s, i + 1);
        }
    }
}

proof fn lemma_update_order_all_len(entries: Seq<(char, usize)>, inputs: Seq<String>, k: int)
    ensures
        spec_update_order_all(entries, inputs, k).len() >= entries.len(),
    decreases inputs.len() - k,
{
    if 0 <= k < inputs.len() {
        lemma_update_order_len(entries, inputs[k]@, 0);
        lemma_update_order_all_len(spec_update_order(entries, inputs[k]@, 0), inputs, k + 1);
    }
}

proof fn lemma_update_order_wf(entries: Seq<(char, usize)>, s: Seq<char>, i: int)
    requires
        0 <= i,
        entries_dense(entries),
        entries_keys_distinct(entries),
        spec_update_order(entries, s, i).len() <= usize::MAX,
    ensures
        entries_dense(spec_update_order(entries, s, i)),
        entries_keys_distinct(spec_update_order(entries, s, i)),
    decreases s.len() - i,
{
    if i < s.len() {
        let c = s[i];
        if c == ' ' || is_op_char(c) || entries_has_key(entries, c) {
            lemma_update_order_wf(entries, s, i + 1);
        } else if is_alpha(c) {
            let pushed = entries.push((c, entries.len() as usize));
            lemma_update_order_len(pushed, s, i + 1);
            assert(entries_dense(pushed));
            assert forall|x: int, y: int|
                0 <= x < y < pushed.len() implies pushed[x].0 != pushed[y].0 by {
                if y == pushed.len() - 1 {
                    assert(!entries_has_key(entries, c));
                    assert(pushed[x] == entries[x]);
                }
            }
            lemma_update_order_wf(pushed, s, i + 1);
        } else {
            lemma_update_order_wf(entries, s, i + 1);
        }
    }
}

proof fn lemma_update_order_all_wf(entries: Seq<(char, usize)>, inputs: Seq<String>, k: int)
    requires
        0 <= k,
        entries_dense(entries),
        entries_keys_distinct(entries),
        spec_update_order_all(entries, inputs, k).len() <= usize::MAX,
    ensures
        entries_dense(spec_update_order_all(entries, inputs, k)),
        entries_keys_distinct(spec_update_order_all(entries, inputs, k)),
    decreases inputs.len() - k,
{
    if k < inputs.len() {
        let mid = spec_update_order(entries, inputs[k]@, 0);
        lemma_update_order_all_len(mid, inputs, k + 1);
        lemma_update_order_wf(entries, inputs[k]@, 0);
        lemma_update_order_all_wf(mid, inputs, k + 1);
    }
}

impl Parser {
    /// Parses a batch of raw formulas into the session and extends the
    /// shared ordering with each formula's first-seen variables. On a
    /// parse failure the formulas before the failing one stay parsed,
    /// the ordering and the raw list are left as they were, and the error
    /// is reported.
    pub fn add_expr(&mut self, raw_inputs: Vec<String>) -> (r: Result<(), ParseError>)
        ensures
            match r {
                Ok(_) => {
                    &&& final(self).raw_exprs@ == old(self).raw_exprs@ + raw_inputs@
                    &&& final(self).exprs@.len() == old(self).exprs@.len() + raw_inputs@.len()
                    &&& forall|k: int|
                        0 <= k < old(self).exprs@.len() ==> final(self).exprs@[k] == old(
                            self,
                        ).exprs@[k]
                    &&& forall|k: int|
                        0 <= k < raw_inputs@.len() ==> {
                            let tk = final(self).exprs@[old(self).exprs@.len() + k];
                            spec_tokenize(#[trigger] raw_inputs@[k]@) == Some(tk.tokens@)
                                && spec_rpn(tk.tokens@) == Ok::<Seq<Token>, ParseError>(tk.rpn@)
                        }
                    &&& map_entries(final(self).ast_order) == spec_update_order_all(
                        map_entries(old(self).ast_order),
                        raw_inputs@,
                        0,
                    )
                },
                Err(_) => {
                    &&& final(self).raw_exprs@ == old(self).raw_exprs@
                    &&& exists|k: int|
                        0 <= k < raw_inputs@.len() && !spec_parse_ok(#[trigger] raw_inputs@[k]@)
                },
            },
            (forall|k: int| 0 <= k < raw_inputs@.len() ==> spec_parse_ok(#[trigger] raw_inputs@[k]@))
                ==> r is Ok,
    {
        let n = raw_inputs.len();
        let mut k: usize = 0;
        while k < n
            invariant
                n == raw_inputs@.len(),
                0 <= k <= n,
                self.raw_exprs@ == old(self).raw_exprs@,
                self.exprs@.len() == old(self).exprs@.len() + k,
                forall|j: int|
                    0 <= j < old(self).exprs@.len() ==> self.exprs@[j] == old(self).exprs@[j],
                forall|j: int|
                    0 <= j < k ==> {
                        let tk = self.exprs@[old(self).exprs@.len() + j];
                        spec_tokenize(#[trigger] raw_inputs@[j]@) == Some(tk.tokens@) && spec_rpn(
                            tk.tokens@,
                        ) == Ok::<Seq<Token>, ParseError>(tk.rpn@)
                    },
                map_entries(self.ast_order) == spec_update_order_all(
                    map_entries(old(self).ast_order),
                    raw_inputs@.subrange(0, k as int),
                    0,
                ),
            decreases n - k,
        {
            let ghost entries_before = map_entries(self.ast_order);
            let tokenized = match parse_expr(&raw_inputs[k]) {
                Ok(v) => v,
                Err(e) => {
                    return Err(e);
                },
            };
            self.exprs.push(tokenized);
            self.update_ast_map(&raw_inputs[k]);
            proof {
                lemma_update_order_all_snoc(
                    map_entries(old(self).ast_order),
                    raw_inputs@,
                    k as int,
                    entries_before,
                );
            }
            k = k + 1;
        }
        proof {
            assert(raw_inputs@.subrange(0, n as int) =~= raw_inputs@);
        }
        let mut tail = raw_inputs;
        self.raw_exprs.append(&mut tail);
        Ok(())
    }

    /// Extends the shared ordering with the variables of one raw formula,
    /// in first-seen order.
    fn update_ast_map(&mut self, raw: &String)
        ensures
            final(self).raw_exprs@ == old(self).raw_exprs@,
            final(self).exprs@ == old(self).exprs@,
            map_entries(final(self).ast_order) == spec_update_order(
                map_entries(old(self).ast_order),
                raw@,
                0,
            ),
    {
        let s = raw.as_str();
        let n = s.unicode_len();
        let mut i: usize = 0;
        while i < n
            invariant
                n == s@.len(),
                s@ == raw@,
                0 <= i <= n,
                self.raw_exprs@ == old(self).raw_exprs@,
                self.exprs@ == old(self).exprs@,
                spec_update_order(map_entries(self.ast_order), raw@, i as int)
                    == spec_update_order(map_entries(old(self).ast_order), raw@, 0),
            decreases n - i,
        {
            let c = s.get_char(i);
            let code = c as u32;
            let alphabetic = (97 <= code && code <= 122) || (65 <= code && code <= 90);
            let operator = c == '&' || c == '|' || c == '^' || c == '!' || c == '~' || c == '('
                || c == ')';
            if c == ' ' || operator || ordering_contains(&self.ast_order, c) {
                // known or irrelevant character: nothing to record
            } else if alphabetic {
                let pos = ordering_len(&self.ast_order);
                let _old_val = ordering_insert(&mut self.ast_order, c, pos);
            }
            i = i + 1;
        }
    }
}

proof fn lemma_update_order_all_snoc(
    start: Seq<(char, usize)>,
    inputs: Seq<String>,
    k: int,
    entries_k: Seq<(char, usize)>,
)
    requires
        0 <= k < inputs.len(),
        entries_k == spec_update_order_all(start, inputs.subrange(0, k), 0),
    ensures
        spec_update_order(entries_k, inputs[k]@, 0) == spec_update_order_all(
            start,
            inputs.subrange(0, k + 1),
            0,
        ),
{
    lemma_update_order_all_step(start, inputs, 0, k);
}

proof fn lemma_update_order_all_step(start: Seq<(char, usize)>, inputs: Seq<String>, j: int, k: int)
    requires
        0 <= j <= k < inputs.len(),
    ensures
        spec_update_order(
            spec_update_order_all(start, inputs.subrange(0, k), j),
            inputs[k]@,
            0,
        ) == spec_update_order_all(start, inputs.subrange(0, k + 1), j),
    decreases k - j,
{
    let pre = inputs.subrange(0, k);
    let full = inputs.subrange(0, k + 1);
    if j >= k {
        assert(spec_update_order_all(start, pre, j) == start);
        assert(full[j] == inputs[k]);
        assert(spec_update_order_all(start, full, j) == spec_update_order_all(
            spec_update_order(start, inputs[k]@, 0),
            full,
            j + 1,
        ));
        assert(spec_update_order_all(spec_update_order(start, inputs[k]@, 0), full, j + 1)
            == spec_update_order(start, inputs[k]@, 0));
    } else {
        assert(pre[j] == inputs[j]);
        assert(full[j] == inputs[j]);
        lemma_update_order_all_step(spec_update_order(start, inputs[j]@, 0), inputs, j + 1, k);
    }
}

/// Builds a parsing session from a batch of raw formulas: an empty session
/// extended by `add_expr`. The resulting ordering assigns dense, zero-based
/// positions in first-seen order.
pub fn create_session(raw_inputs: Vec<String>) -> (r: Result<Parser, ParseError>)
    ensures
        match r {
            Ok(p) => {
                &&& p.raw_exprs@ == raw_inputs@
                &&& p.exprs@.len() == raw_inputs@.len()
                &&& forall|k: int|
                    0 <= k < raw_inputs@.len() ==> {
                        let tk = p.exprs@[k];
                        spec_tokenize(#[trigger] raw_inputs@[k]@) == Some(tk.tokens@) && spec_rpn(
                            tk.tokens@,
                        ) == Ok::<Seq<Token>, ParseError>(tk.rpn@)
                    }
                &&& map_entries(p.ast_order) == spec_update_order_all(
                    Seq::<(char, usize)>::empty(),
                    raw_inputs@,
                    0,
                )
                &&& entries_dense(map_entries(p.ast_order))
                &&& entries_keys_distinct(map_entries(p.ast_order))
            },
            Err(_) => exists|k: int|
                0 <= k < raw_inputs@.len() && !spec_parse_ok(#[trigger] raw_inputs@[k]@),
        },
        (forall|k: int| 0 <= k < raw_inputs@.len() ==> spec_parse_ok(#[trigger] raw_inputs@[k]@))
            ==> r is Ok,
{
    let ast_order = crate::ordering_map::ordering_new();
    let exprs: Vec<Tokenized> = Vec::with_capacity(raw_inputs.len());
    let mut res = Parser { raw_exprs: Vec::with_capacity(raw_inputs.len()), exprs, ast_order };
    let ghost inputs = raw_inputs@;
    match res.add_expr(raw_inputs) {
        Ok(_) => {
            // the map's length fits a machine word, which grounds the
            // density of its positions
            let _len_bound = ordering_len(&res.ast_order);
            proof {
                lemma_update_order_all_wf(Seq::<(char, usize)>::empty(), inputs, 0);
            }
            Ok(res)
        },
        Err(e) => Err(e),
    }
}

} // verus!
