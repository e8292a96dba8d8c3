//! Writing a [`TextMessage`] as text and reading it back.
//!
//! A message whose values hold no space or newline and that has no dabs is
//! written on one line: the user ID, the message name and `key=value`
//! arguments, separated by spaces:
//!
//! ```text
//! 1 join flags=auth,mod name=XYZ
//! ```
//!
//! Any other message is written as a block. The first line holds the user
//! ID, the name and `{`; each line of each value follows as a `key=line`
//! line, then each dab as a line of space separated numbers, each of these
//! lines indented with a tab; the block ends with a `}` line:
//!
//! ```text
//! 1 chat flags=0 {
//! 	message=hello
//! 	message=world
//! }
//! ```
//!
//! When reading a block, a key that occurs again continues its value on a
//! new line.
use super::pieces::{
    all_lack, join_with, lemma_join_lacks, lemma_join_split, lemma_split_join, lemma_split_lacks,
    split_on, split_ranges, contains_char,
};
use super::textfmt::{
    chars_eq, chars_to_string, dec_digits, first_index, first_index_exec,
    lemma_dec_digits, lemma_digits_lack, lemma_first_index, lemma_parse_dec, parse_int,
    parse_int_exec, push_chars, push_dec, push_str_chars, str_chars,
};
use super::textmessage::{
    args_of, dabs_of, key_index, lemma_key_index, lemma_key_index_push, token_ok, ArgsView,
    DabsView, TextMessage,
};
use vstd::prelude::*;

verus! {

// ---------------------------------------------------------------------------
// Writing
// ---------------------------------------------------------------------------

/// `key=value`
pub open spec fn arg_token(k: Seq<char>, v: Seq<char>) -> Seq<char> {
    k + seq!['='] + v
}

/// The arguments as `key=value` tokens
pub open spec fn arg_tokens(args: ArgsView) -> Seq<Seq<char>> {
    Seq::new(args.len(), |i: int| arg_token(args[i].0, args[i].1))
}

/// Whether a value must be written in a block
pub open spec fn spreads(v: Seq<char>) -> bool {
    v.contains(' ') || v.contains('\n')
}

/// Whether a message is written as a block
pub open spec fn needs_block(args: ArgsView, dabs: DabsView) -> bool {
    dabs.len() > 0 || exists|i: int| 0 <= i < args.len() && spreads(#[trigger] args[i].1)
}

/// The block lines of one argument: a `key=line` line for each line of the value
pub open spec fn value_lines(k: Seq<char>, v: Seq<char>) -> Seq<Seq<char>> {
    split_on(v, '\n').map_values(|l: Seq<char>| seq!['\t'] + arg_token(k, l))
}

/// The block lines of the arguments
pub open spec fn args_lines(args: ArgsView) -> Seq<Seq<char>>
    decreases args.len(),
{
    if args.len() == 0 {
        Seq::empty()
    } else {
        args_lines(args.drop_last()) + value_lines(args.last().0, args.last().1)
    }
}

/// The block lines of the dabs
pub open spec fn dab_lines(dabs: DabsView) -> Seq<Seq<char>> {
    dabs.map_values(|d: Seq<Seq<char>>| seq!['\t'] + join_with(d, ' '))
}

/// The first tokens of a message: its user ID and name
pub open spec fn head_tokens(user_id: u8, name: Seq<char>) -> Seq<Seq<char>> {
    seq![dec_digits(user_id as nat), name]
}

/// The lines of a message's text form
pub open spec fn text_lines(user_id: u8, name: Seq<char>, args: ArgsView, dabs: DabsView) -> Seq<
    Seq<char>,
> {
    if needs_block(args, dabs) {
        seq![join_with(head_tokens(user_id, name).push(seq!['{']), ' ')] + args_lines(args)
            + dab_lines(dabs) + seq![seq!['}']]
    } else {
        seq![join_with(head_tokens(user_id, name) + arg_tokens(args), ' ')]
    }
}

/// The text form of a message
pub open spec fn text_of(user_id: u8, name: Seq<char>, args: ArgsView, dabs: DabsView) -> Seq<
    char,
> {
    join_with(text_lines(user_id, name, args, dabs), '\n')
}

// ---------------------------------------------------------------------------
// Reading
// ---------------------------------------------------------------------------

/// Adding a `key=line` pair: a key that is already there continues its
/// value on a new line, a new key is added at the end
pub open spec fn add_arg_line(args: ArgsView, k: Seq<char>, l: Seq<char>) -> ArgsView {
    let i = key_index(args, k);
    if i < args.len() {
        args.update(i, (k, args[i].1 + seq!['\n'] + l))
    } else {
        args.push((k, l))
    }
}

/// A block line without its indentation
pub open spec fn strip_tab(l: Seq<char>) -> Seq<char> {
    if l.len() > 0 && l[0] == '\t' {
        l.drop_first()
    } else {
        l
    }
}

/// Reading one block line: a `key=line` pair or a dab
pub open spec fn apply_line(st: (ArgsView, DabsView), line: Seq<char>) -> (ArgsView, DabsView) {
    let l = strip_tab(line);
    let e = first_index(l, '=');
    if e < l.len() {
        (add_arg_line(st.0, l.subrange(0, e), l.subrange(e + 1, l.len() as int)), st.1)
    } else {
        (st.0, st.1.push(split_on(l, ' ')))
    }
}

/// Reading block lines in order
pub open spec fn apply_lines(st: (ArgsView, DabsView), lines: Seq<Seq<char>>) -> (
    ArgsView,
    DabsView,
)
    decreases lines.len(),
{
    if lines.len() == 0 {
        st
    } else {
        apply_line(apply_lines(st, lines.drop_last()), lines.last())
    }
}

/// Reading the `key=value` tokens of a single line message; `None` when a
/// token has no `=`
pub open spec fn parse_arg_tokens(toks: Seq<Seq<char>>) -> Option<ArgsView>
    decreases toks.len(),
{
    if toks.len() == 0 {
        Some(Seq::empty())
    } else {
        match parse_arg_tokens(toks.drop_last()) {
            Some(a) => {
                let t = toks.last();
                let e = first_index(t, '=');
                if e < t.len() {
                    Some(add_arg_line(a, t.subrange(0, e), t.subrange(e + 1, t.len() as int)))
                } else {
                    None
                }
            },
            None => None,
        }
    }
}

/// The user ID, name, arguments and dabs of a message's text form;
/// `None` when the text is not a message
pub open spec fn parse_text(s: Seq<char>) -> Option<(u8, Seq<char>, ArgsView, DabsView)> {
    let lines = split_on(s, '\n');
    let toks = split_on(lines[0], ' ');
    if toks.len() < 2 {
        None
    } else {
        match parse_int(toks[0]) {
            Some(u) => if 0 <= u <= 255 {
                if toks.len() == 3 && toks[2] == seq!['{'] {
                    if lines.len() >= 2 && lines.last() == seq!['}'] {
                        let st = apply_lines(
                            (Seq::empty(), Seq::empty()),
                            lines.subrange(1, lines.len() - 1),
                        );
                        Some((u as u8, toks[1], st.0, st.1))
                    } else {
                        None
                    }
                } else if lines.len() == 1 {
                    match parse_arg_tokens(toks.subrange(2, toks.len() as int)) {
                        Some(a) => Some((u as u8, toks[1], a, Seq::empty())),
                        None => None,
                    }
                } else {
                    None
                }
            } else {
                None
            },
            None => None,
        }
    }
}

// ---------------------------------------------------------------------------
// Reading back what was written
// ---------------------------------------------------------------------------

/// Whether a message's text form reads back as the message: the name holds
/// no space or newline, keys are distinct tokens, and each dab is a nonempty
/// list of tokens
pub open spec fn text_wf(name: Seq<char>, args: ArgsView, dabs: DabsView) -> bool {
    &&& !name.contains(' ')
    &&& !name.contains('\n')
    &&& forall|i: int| 0 <= i < args.len() ==> token_ok(#[trigger] args[i].0)
    &&& forall|i: int, j: int| 0 <= i < j < args.len() ==> args[i].0 != args[j].0
    &&& forall|i: int|
        0 <= i < dabs.len() ==> (#[trigger] dabs[i]).len() >= 1 && forall|j: int|
            0 <= j < dabs[i].len() ==> token_ok(#[trigger] dabs[i][j])
}

/// A key that none of the first `n` arguments has
proof fn lemma_key_absent(args: ArgsView, n: int)
    requires
        0 <= n < args.len(),
        forall|i: int, j: int| 0 <= i < j < args.len() ==> args[i].0 != args[j].0,
    ensures
        key_index(args.subrange(0, n), args[n].0) == n,
{
    let a = args.subrange(0, n);
    lemma_key_index(a, args[n].0, n);
}

proof fn lemma_first_eq(k: Seq<char>, v: Seq<char>)
    requires
        !k.contains('='),
    ensures
        first_index(arg_token(k, v), '=') == k.len(),
        arg_token(k, v).subrange(0, k.len() as int) == k,
        arg_token(k, v).subrange(k.len() as int + 1, arg_token(k, v).len() as int) == v,
{
    let t = arg_token(k, v);
    assert forall|j: int| 0 <= j < k.len() implies t[j] != '=' by {
        assert(t[j] == k[j]);
    }
    lemma_first_index(t, '=', k.len() as int);
    assert(t.subrange(0, k.len() as int) =~= k);
    assert(t.subrange(k.len() as int + 1, t.len() as int) =~= v);
}

/// Reading two runs of lines is reading the first, then the second
proof fn lemma_apply_concat(st: (ArgsView, DabsView), l: Seq<Seq<char>>, m: Seq<Seq<char>>)
    ensures
        apply_lines(st, l + m) == apply_lines(apply_lines(st, l), m),
    decreases m.len(),
{
    if m.len() == 0 {
        assert(l + m =~= l);
    } else {
        assert((l + m).drop_last() =~= l + m.drop_last());
        assert((l + m).last() == m.last());
        lemma_apply_concat(st, l, m.drop_last());
    }
}

proof fn lemma_value_lines_step(
    a: ArgsView,
    d: DabsView,
    k: Seq<char>,
    v: Seq<char>,
    j: int,
)
    requires
        token_ok(k),
        key_index(a, k) == a.len(),
        1 <= j <= split_on(v, '\n').len(),
    ensures
        apply_lines((a, d), value_lines(k, v).take(j)) == (
            a.push((k, join_with(split_on(v, '\n').take(j), '\n'))),
            d,
        ),
    decreases j,
{
    let ls = split_on(v, '\n');
    let vl = value_lines(k, v);
    let l = ls[j - 1];
    assert(vl.take(j).drop_last() =~= vl.take(j - 1));
    assert(vl.take(j).last() == seq!['\t'] + arg_token(k, l));
    assert(strip_tab(seq!['\t'] + arg_token(k, l)) =~= arg_token(k, l));
    lemma_first_eq(k, l);
    let t = arg_token(k, l);
    assert(apply_line((a, d), seq!['\t'] + t) == (a.push((k, l)), d));
    if j == 1 {
        assert(vl.take(0) =~= Seq::<Seq<char>>::empty());
        assert(apply_lines((a, d), vl.take(0)) == (a, d));
        assert(ls.take(1) =~= seq![l]);
        assert(join_with(seq![l], '\n') == l);
    } else {
        lemma_value_lines_step(a, d, k, v, j - 1);
        let prev = join_with(ls.take(j - 1), '\n');
        lemma_key_index_push(a, (k, prev), k);
        assert(ls.take(j).drop_last() =~= ls.take(j - 1));
        assert(ls.take(j).last() == l);
        assert(join_with(ls.take(j), '\n') == prev + seq!['\n'] + l);
        let b = a.push((k, prev));
        assert(b.update(a.len() as int, (k, prev + seq!['\n'] + l)) =~= a.push(
            (k, prev + seq!['\n'] + l),
        ));
        assert(apply_line((b, d), seq!['\t'] + t) == (a.push((k, prev + seq!['\n'] + l)), d));
    }
}

/// Reading the lines of a new argument adds it
proof fn lemma_value_lines(a: ArgsView, d: DabsView, k: Seq<char>, v: Seq<char>)
    requires
        token_ok(k),
        key_index(a, k) == a.len(),
    ensures
        apply_lines((a, d), value_lines(k, v)) == (a.push((k, v)), d),
{
    let ls = split_on(v, '\n');
    lemma_join_split(v, '\n');
    lemma_value_lines_step(a, d, k, v, ls.len() as int);
    assert(ls.take(ls.len() as int) =~= ls);
    assert(value_lines(k, v).take(ls.len() as int) =~= value_lines(k, v));
}

/// Reading the lines of distinct arguments gives them back
proof fn lemma_args_lines(args: ArgsView)
    requires
        forall|i: int| 0 <= i < args.len() ==> token_ok(#[trigger] args[i].0),
        forall|i: int, j: int| 0 <= i < j < args.len() ==> args[i].0 != args[j].0,
    ensures
        apply_lines((Seq::empty(), Seq::empty()), args_lines(args)) == (args, DabsView::empty()),
    decreases args.len(),
{
    if args.len() > 0 {
        let init = args.drop_last();
        let n = init.len() as int;
        lemma_args_lines(init);
        lemma_apply_concat(
            (Seq::empty(), Seq::empty()),
            args_lines(init),
            value_lines(args.last().0, args.last().1),
        );
        lemma_key_absent(args, n);
        assert(args.subrange(0, n) =~= init);
        assert(token_ok(args[n].0));
        lemma_value_lines(init, DabsView::empty(), args.last().0, args.last().1);
        assert(init.push(args.last()) =~= args);
    }
}

/// Reading the lines of dabs adds them
proof fn lemma_dab_lines(st: (ArgsView, DabsView), dabs: DabsView)
    requires
        forall|i: int|
            0 <= i < dabs.len() ==> (#[trigger] dabs[i]).len() >= 1 && forall|j: int|
                0 <= j < dabs[i].len() ==> token_ok(#[trigger] dabs[i][j]),
    ensures
        apply_lines(st, dab_lines(dabs)) == (st.0, st.1 + dabs),
    decreases dabs.len(),
{
    if dabs.len() == 0 {
        assert(dab_lines(dabs) =~= Seq::<Seq<char>>::empty());
        assert(st.1 + dabs =~= st.1);
    } else {
        let init = dabs.drop_last();
        let d = dabs.last();
        lemma_dab_lines(st, init);
        assert(dab_lines(dabs).drop_last() =~= dab_lines(init));
        let line = seq!['\t'] + join_with(d, ' ');
        assert(dab_lines(dabs).last() == line);
        assert(strip_tab(line) =~= join_with(d, ' '));
        assert(d == dabs[dabs.len() - 1]);
        assert(all_lack(d, '=') && all_lack(d, ' ')) by {
            assert forall|j: int| 0 <= j < d.len() implies !(#[trigger] d[j]).contains('=') && !d[
                j
            ].contains(' ') by {
                assert(token_ok(dabs[dabs.len() - 1][j]));
            }
        }
        lemma_join_lacks(d, ' ', '=');
        crate::protocol::pieces::lemma_first_index_bounds(join_with(d, ' '), '=');
        lemma_split_join(d, ' ');
        assert((st.1 + init).push(d) =~= st.1 + dabs);
    }
}

/// No line of a message's text form holds a newline
proof fn lemma_lines_lack_newline(user_id: u8, name: Seq<char>, args: ArgsView, dabs: DabsView)
    requires
        text_wf(name, args, dabs),
    ensures
        all_lack(text_lines(user_id, name, args, dabs), '\n'),
        text_lines(user_id, name, args, dabs).len() >= 1,
{
    lemma_dec_digits(user_id as nat);
    lemma_digits_lack(dec_digits(user_id as nat), '\n');
    lemma_digits_lack(dec_digits(user_id as nat), ' ');
    let lines = text_lines(user_id, name, args, dabs);
    let head = head_tokens(user_id, name);
    if needs_block(args, dabs) {
        let h = head.push(seq!['{']);
        assert(all_lack(h, '\n')) by {
            assert forall|i: int| 0 <= i < h.len() implies !(#[trigger] h[i]).contains('\n') by {
                if i == 2 {
                    assert(h[2] =~= seq!['{']);
                }
            }
        }
        lemma_join_lacks(h, ' ', '\n');
        lemma_args_lines_lack(args);
        let dl = dab_lines(dabs);
        assert(all_lack(dl, '\n')) by {
            assert forall|i: int| 0 <= i < dl.len() implies !(#[trigger] dl[i]).contains('\n') by {
                let d = dabs[i];
                assert(all_lack(d, '\n')) by {
                    assert forall|j: int| 0 <= j < d.len() implies !(#[trigger] d[j]).contains(
                        '\n',
                    ) by {
                        assert(token_ok(dabs[i][j]));
                    }
                }
                lemma_join_lacks(d, ' ', '\n');
            }
        }
        let al = args_lines(args);
        assert forall|i: int| 0 <= i < lines.len() implies !(#[trigger] lines[i]).contains('\n') by {
            if i == 0 {
            } else if i < 1 + al.len() {
                assert(lines[i] == al[i - 1]);
            } else if i < 1 + al.len() + dl.len() {
                assert(lines[i] == dl[i - 1 - al.len()]);
            } else {
                assert(lines[i] =~= seq!['}']);
            }
        }
    } else {
        let t = head + arg_tokens(args);
        assert(all_lack(t, '\n')) by {
            assert forall|i: int| 0 <= i < t.len() implies !(#[trigger] t[i]).contains('\n') by {
                if i >= 2 {
                    let k = args[i - 2].0;
                    let v = args[i - 2].1;
                    assert(!spreads(v));
                    assert(token_ok(k));
                    assert(t[i] == arg_token(k, v));
                    if arg_token(k, v).contains('\n') {
                        let m = choose|m: int|
                            0 <= m < arg_token(k, v).len() && arg_token(k, v)[m] == '\n';
                        if m < k.len() {
                            assert(k[m] == '\n');
                        } else if m > k.len() {
                            assert(v[m - k.len() - 1] == '\n');
                        }
                    }
                }
            }
        }
        lemma_join_lacks(t, ' ', '\n');
    }
}

proof fn lemma_args_lines_lack(args: ArgsView)
    requires
        forall|i: int| 0 <= i < args.len() ==> token_ok(#[trigger] args[i].0),
    ensures
        all_lack(args_lines(args), '\n'),
    decreases args.len(),
{
    if args.len() > 0 {
        let init = args.drop_last();
        assert forall|i: int| 0 <= i < init.len() implies token_ok(#[trigger] init[i].0) by {
            assert(init[i] == args[i]);
        }
        lemma_args_lines_lack(init);
        let k = args.last().0;
        let v = args.last().1;
        assert(token_ok(args[args.len() - 1].0));
        lemma_split_lacks(v, '\n');
        let ls = split_on(v, '\n');
        let vl = value_lines(k, v);
        assert(all_lack(vl, '\n')) by {
            assert forall|i: int| 0 <= i < vl.len() implies !(#[trigger] vl[i]).contains('\n') by {
                let l = ls[i];
                assert(!l.contains('\n'));
                let x = vl[i];
                assert(x == seq!['\t'] + arg_token(k, l));
                if x.contains('\n') {
                    let m = choose|m: int| 0 <= m < x.len() && x[m] == '\n';
                    if 1 <= m < 1 + k.len() {
                        assert(k[m - 1] == '\n');
                    } else if m > 1 + k.len() {
                        assert(l[m - 2 - k.len()] == '\n');
                    }
                }
            }
        }
        let al = args_lines(args);
        let ai = args_lines(init);
        assert forall|i: int| 0 <= i < al.len() implies !(#[trigger] al[i]).contains('\n') by {
            if i < ai.len() {
                assert(al[i] == ai[i]);
            } else {
                assert(al[i] == vl[i - ai.len()]);
            }
        }
    }
}

/// Reading the `key=value` tokens of distinct arguments gives them back
proof fn lemma_parse_arg_tokens(args: ArgsView)
    requires
        forall|i: int| 0 <= i < args.len() ==> token_ok(#[trigger] args[i].0),
        forall|i: int, j: int| 0 <= i < j < args.len() ==> args[i].0 != args[j].0,
    ensures
        parse_arg_tokens(arg_tokens(args)) == Some(args),
    decreases args.len(),
{
    if args.len() > 0 {
        let init = args.drop_last();
        let n = init.len() as int;
        lemma_parse_arg_tokens(init);
        assert(arg_tokens(args).drop_last() =~= arg_tokens(init));
        let k = args[n].0;
        let v = args[n].1;
        assert(arg_tokens(args).last() == arg_token(k, v));
        assert(token_ok(k));
        lemma_first_eq(k, v);
        lemma_key_absent(args, n);
        assert(args.subrange(0, n) =~= init);
        assert(init.push((k, v)) =~= args);
    }
}

/// Reading a message's text form gives the message back
pub proof fn lemma_text_roundtrip(user_id: u8, name: Seq<char>, args: ArgsView, dabs: DabsView)
    requires
        text_wf(name, args, dabs),
    ensures
        parse_text(text_of(user_id, name, args, dabs)) == Some((user_id, name, args, dabs)),
{
    let lines = text_lines(user_id, name, args, dabs);
    lemma_lines_lack_newline(user_id, name, args, dabs);
    lemma_split_join(lines, '\n');
    lemma_dec_digits(user_id as nat);
    lemma_digits_lack(dec_digits(user_id as nat), ' ');
    lemma_parse_dec(user_id as nat);
    let head = head_tokens(user_id, name);
    if needs_block(args, dabs) {
        let h = head.push(seq!['{']);
        assert(all_lack(h, ' ')) by {
            assert forall|i: int| 0 <= i < h.len() implies !(#[trigger] h[i]).contains(' ') by {
                if i == 2 {
                    assert(h[2] =~= seq!['{']);
                }
            }
        }
        lemma_split_join(h, ' ');
        let body = args_lines(args) + dab_lines(dabs);
        assert(lines.subrange(1, lines.len() - 1) =~= body);
        lemma_apply_concat((Seq::empty(), Seq::empty()), args_lines(args), dab_lines(dabs));
        lemma_args_lines(args);
        lemma_dab_lines((args, DabsView::empty()), dabs);
        assert(DabsView::empty() + dabs =~= dabs);
    } else {
        let t = head + arg_tokens(args);
        assert(all_lack(t, ' ')) by {
            assert forall|i: int| 0 <= i < t.len() implies !(#[trigger] t[i]).contains(' ') by {
                if i >= 2 {
                    let k = args[i - 2].0;
                    let v = args[i - 2].1;
                    assert(!spreads(v));
                    assert(token_ok(k));
                    assert(t[i] == arg_token(k, v));
                    if arg_token(k, v).contains(' ') {
                        let m = choose|m: int|
                            0 <= m < arg_token(k, v).len() && arg_token(k, v)[m] == ' ';
                        if m < k.len() {
                            assert(k[m] == ' ');
                        } else if m > k.len() {
                            assert(v[m - k.len() - 1] == ' ');
                        }
                    }
                }
            }
        }
        lemma_split_join(t, ' ');
        if t.len() == 3 {
            let k = args[0].0;
            let v = args[0].1;
            assert(t[2] == arg_token(k, v));
            assert(arg_token(k, v)[k.len() as int] == '=');
            assert(t[2] != seq!['{']);
        }
        assert(t.subrange(2, t.len() as int) =~= arg_tokens(args));
        lemma_parse_arg_tokens(args);
    }
}

// ---------------------------------------------------------------------------
// Executable writing and reading
// ---------------------------------------------------------------------------

impl TextMessage {
    /// The text form of this message
    pub open spec fn text(&self) -> Seq<char> {
        text_of(self.user_id, self.name@, self.args_view(), self.dabs_view())
    }

    fn needs_block_exec(&self) -> (r: bool)
        ensures
            r == needs_block(self.args_view(), self.dabs_view()),
    {
        if self.dabs.len() > 0 {
            return true;
        }
        let ghost args = self.args_view();
        let mut i: usize = 0;
        while i < self.args.len()
            invariant
                i <= self.args@.len(),
                args == self.args_view(),
                forall|j: int| 0 <= j < i ==> !spreads(#[trigger] args[j].1),
            decreases self.args@.len() - i,
        {
            let v = str_chars(self.args[i].1.as_str());
            if contains_char(v.as_slice(), ' ') || contains_char(v.as_slice(), '\n') {
                assert(spreads(args[i as int].1));
                return true;
            }
            i += 1;
        }
        false
    }

    /// Write the text form of this message
    pub fn to_string(&self) -> (s: String)
        ensures
            s@ == self.text(),
    {
        let ghost args = self.args_view();
        let ghost dabs = self.dabs_view();
        let ghost head = head_tokens(self.user_id, self.name@);
        let mut out: Vec<char> = Vec::new();
        push_dec(&mut out, self.user_id as u64);
        out.push(' ');
        push_str_chars(&mut out, self.name.as_str());
        proof {
            let dd = dec_digits(self.user_id as nat);
            assert(head.drop_last() =~= seq![dd]);
            assert(join_with(seq![dd], ' ') == dd);
            assert(head.last() == self.name@);
            assert(out@ =~= join_with(head, ' '));
        }
        if self.needs_block_exec() {
            out.push(' ');
            out.push('{');
            let ghost first = join_with(head.push(seq!['{']), ' ');
            proof {
                crate::protocol::pieces::lemma_join_push(head, seq!['{'], ' ');
                assert(out@ =~= first);
                assert(args.take(0) =~= ArgsView::empty());
                assert(seq![first] + args_lines(args.take(0)) =~= seq![first]);
            }
            let mut i: usize = 0;
            while i < self.args.len()
                invariant
                    i <= self.args@.len(),
                    args == self.args_view(),
                    out@ == join_with(seq![first] + args_lines(args.take(i as int)), '\n'),
                decreases self.args@.len() - i,
            {
                let k = str_chars(self.args[i].0.as_str());
                let v = str_chars(self.args[i].1.as_str());
                let ranges = split_ranges(v.as_slice(), '\n');
                let ghost before = seq![first] + args_lines(args.take(i as int));
                let ghost vl = value_lines(k@, v@);
                proof {
                    assert(vl.take(0) =~= Seq::<Seq<char>>::empty());
                    assert(before + vl.take(0) =~= before);
                }
                let mut j: usize = 0;
                while j < ranges.len()
                    invariant
                        j <= ranges@.len(),
                        ranges@.len() == split_on(v@, '\n').len(),
                        forall|m: int|
                            #![trigger ranges@[m]]
                            0 <= m < ranges@.len() ==> ranges@[m].0 <= ranges@[m].1 <= v@.len()
                                && split_on(v@, '\n')[m] == v@.subrange(
                                ranges@[m].0 as int,
                                ranges@[m].1 as int,
                            ),
                        vl == value_lines(k@, v@),
                        before.len() >= 1,
                        out@ == join_with(before + vl.take(j as int), '\n'),
                    decreases ranges@.len() - j,
                {
                    let (a, b) = ranges[j];
                    let piece = vstd::slice::slice_subrange(v.as_slice(), a, b);
                    let ghost line = seq!['\t'] + arg_token(k@, piece@);
                    proof {
                        assert(vl[j as int] == line);
                        assert(before + vl.take(j + 1) =~= (before + vl.take(j as int)).push(line));
                        crate::protocol::pieces::lemma_join_push(
                            before + vl.take(j as int),
                            line,
                            '\n',
                        );
                    }
                    out.push('\n');
                    out.push('\t');
                    push_chars(&mut out, k.as_slice());
                    out.push('=');
                    push_chars(&mut out, piece);
                    assert(out@ =~= join_with(before + vl.take(j + 1), '\n'));
                    j += 1;
                }
                proof {
                    assert(vl.take(j as int) =~= vl);
                    assert(args.take(i + 1).drop_last() =~= args.take(i as int));
                    assert(args.take(i + 1).last() == (k@, v@));
                    assert(seq![first] + args_lines(args.take(i + 1)) =~= before + vl);
                }
                i += 1;
            }
            let ghost mid = seq![first] + args_lines(args);
            proof {
                assert(args.take(i as int) =~= args);
                assert(dabs.take(0) =~= DabsView::empty());
                assert(mid + dab_lines(dabs.take(0)) =~= mid);
            }
            let mut i: usize = 0;
            while i < self.dabs.len()
                invariant
                    i <= self.dabs@.len(),
                    dabs == self.dabs_view(),
                    mid.len() >= 1,
                    out@ == join_with(mid + dab_lines(dabs.take(i as int)), '\n'),
                decreases self.dabs@.len() - i,
            {
                let ghost before = out@;
                let ghost d = dabs[i as int];
                out.push('\n');
                out.push('\t');
                let dab = &self.dabs[i];
                let mut j: usize = 0;
                while j < dab.len()
                    invariant
                        j <= dab@.len(),
                        d.len() == dab@.len(),
                        forall|m: int| 0 <= m < d.len() ==> #[trigger] d[m] == dab@[m]@,
                        out@ == before + seq!['\n', '\t'] + join_with(d.take(j as int), ' '),
                    decreases dab@.len() - j,
                {
                    proof {
                        crate::protocol::pieces::lemma_join_take(d, j as int, ' ');
                    }
                    if j > 0 {
                        out.push(' ');
                    }
                    push_str_chars(&mut out, dab[j].as_str());
                    assert(out@ =~= before + seq!['\n', '\t'] + join_with(d.take(j + 1), ' '));
                    j += 1;
                }
                proof {
                    assert(d.take(j as int) =~= d);
                    let line = seq!['\t'] + join_with(d, ' ');
                    let prev = mid + dab_lines(dabs.take(i as int));
                    assert(mid + dab_lines(dabs.take(i + 1)) =~= prev.push(line));
                    crate::protocol::pieces::lemma_join_push(prev, line, '\n');
                    assert(out@ =~= join_with(mid + dab_lines(dabs.take(i + 1)), '\n'));
                }
                i += 1;
            }
            proof {
                assert(dabs.take(i as int) =~= dabs);
                let prev = mid + dab_lines(dabs);
                crate::protocol::pieces::lemma_join_push(prev, seq!['}'], '\n');
                assert(text_lines(self.user_id, self.name@, args, dabs) =~= prev.push(seq!['}']));
            }
            out.push('\n');
            out.push('}');
            assert(out@ =~= self.text());
            chars_to_string(out.as_slice())
        } else {
            let ghost toks = arg_tokens(args);
            proof {
                assert(toks.take(0) =~= Seq::<Seq<char>>::empty());
                assert(head + toks.take(0) =~= head);
            }
            let mut i: usize = 0;
            while i < self.args.len()
                invariant
                    i <= self.args@.len(),
                    args == self.args_view(),
                    toks == arg_tokens(args),
                    head.len() == 2,
                    out@ == join_with(head + toks.take(i as int), ' '),
                decreases self.args@.len() - i,
            {
                proof {
                    let prev = head + toks.take(i as int);
                    assert(head + toks.take(i + 1) =~= prev.push(toks[i as int]));
                    crate::protocol::pieces::lemma_join_push(prev, toks[i as int], ' ');
                }
                out.push(' ');
                push_str_chars(&mut out, self.args[i].0.as_str());
                out.push('=');
                push_str_chars(&mut out, self.args[i].1.as_str());
                assert(out@ =~= join_with(head + toks.take(i + 1), ' '));
                i += 1;
            }
            proof {
                assert(toks.take(i as int) =~= toks);
                let l = join_with(head + toks, ' ');
                assert(text_lines(self.user_id, self.name@, args, dabs) =~= seq![l]);
            }
            chars_to_string(out.as_slice())
        }
    }
}

/// Index of the first stored argument with the given key, or the number of
/// arguments when there is none
fn find_key_in(args: &Vec<(String, String)>, key: &String) -> (r: usize)
    ensures
        r == key_index(args_of(args@), key@),
        r <= args@.len(),
{
    let ghost a = args_of(args@);
    let mut i: usize = 0;
    while i < args.len()
        invariant
            i <= args@.len(),
            a == args_of(args@),
            forall|j: int| 0 <= j < i ==> a[j].0 != key@,
        decreases args@.len() - i,
    {
        if args[i].0 == *key {
            proof {
                lemma_key_index(a, key@, i as int);
            }
            return i;
        }
        i += 1;
    }
    proof {
        lemma_key_index(a, key@, i as int);
    }
    i
}

/// Add a `key=line` pair to stored arguments
fn add_arg_line_exec(args: &mut Vec<(String, String)>, k: &[char], l: &[char])
    ensures
        args_of(final(args)@) == add_arg_line(args_of(old(args)@), k@, l@),
{
    let key = chars_to_string(k);
    let i = find_key_in(args, &key);
    let ghost a = args_of(args@);
    if i < args.len() {
        let mut v = str_chars(args[i].1.as_str());
        assert(v@ == a[i as int].1);
        v.push('\n');
        push_chars(&mut v, l);
        let nv = chars_to_string(v.as_slice());
        assert(nv@ == a[i as int].1 + seq!['\n'] + l@);
        let ghost old_args = args@;
        args.set(i, (key, nv));
        assert(args@ == old_args.update(i as int, (key, nv)));
        assert forall|j: int| 0 <= j < args@.len() implies #[trigger] args_of(args@)[j] == add_arg_line(
            a,
            k@,
            l@,
        )[j] by {
            if j != i {
                assert(args@[j] == old_args[j]);
            }
        }
        assert(args_of(args@) =~= add_arg_line(a, k@, l@));
    } else {
        let nv = chars_to_string(l);
        args.push((key, nv));
        assert(args_of(args@) =~= add_arg_line(a, k@, l@));
    }
}

/// The pieces of `s` separated by spaces, as strings
fn tokens_of(s: &[char]) -> (r: Vec<String>)
    ensures
        r@.len() == split_on(s@, ' ').len(),
        forall|j: int| 0 <= j < r@.len() ==> #[trigger] r@[j]@ == split_on(s@, ' ')[j],
{
    let ranges = split_ranges(s, ' ');
    let mut r: Vec<String> = Vec::new();
    let mut i: usize = 0;
    while i < ranges.len()
        invariant
            i <= ranges@.len(),
            ranges@.len() == split_on(s@, ' ').len(),
            forall|m: int|
                #![trigger ranges@[m]]
                0 <= m < ranges@.len() ==> ranges@[m].0 <= ranges@[m].1 <= s@.len() && split_on(
                    s@,
                    ' ',
                )[m] == s@.subrange(ranges@[m].0 as int, ranges@[m].1 as int),
            r@.len() == i,
            forall|j: int| 0 <= j < i ==> #[trigger] r@[j]@ == split_on(s@, ' ')[j],
        decreases ranges@.len() - i,
    {
        let (a, b) = ranges[i];
        let piece = vstd::slice::slice_subrange(s, a, b);
        r.push(chars_to_string(piece));
        i += 1;
    }
    r
}

/// Read one block line into stored arguments and dabs
fn apply_line_exec(args: &mut Vec<(String, String)>, dabs: &mut Vec<Vec<String>>, line: &[char])
    ensures
        (args_of(final(args)@), dabs_of(final(dabs)@)) == apply_line(
            (args_of(old(args)@), dabs_of(old(dabs)@)),
            line@,
        ),
{
    let l = if line.len() > 0 && line[0] == '\t' {
        vstd::slice::slice_subrange(line, 1, line.len())
    } else {
        line
    };
    assert(l@ =~= strip_tab(line@));
    let e = first_index_exec(l, '=');
    if e < l.len() {
        let k = vstd::slice::slice_subrange(l, 0, e);
        let v = vstd::slice::slice_subrange(l, e + 1, l.len());
        add_arg_line_exec(args, k, v);
    } else {
        let toks = tokens_of(l);
        let ghost d = dabs_of(dabs@);
        assert(Seq::new(toks@.len(), |j: int| toks@[j]@) =~= split_on(l@, ' '));
        dabs.push(toks);
        assert(dabs_of(dabs@) =~= d.push(split_on(l@, ' ')));
    }
}

/// If a prefix of the tokens has one without `=`, so have all of them
proof fn lemma_parse_arg_tokens_none(toks: Seq<Seq<char>>, j: int)
    requires
        0 <= j <= toks.len(),
        parse_arg_tokens(toks.take(j)) is None,
    ensures
        parse_arg_tokens(toks) is None,
    decreases toks.len() - j,
{
    if j == toks.len() {
        assert(toks.take(j) =~= toks);
    } else {
        assert(toks.drop_last().take(j) =~= toks.take(j));
        lemma_parse_arg_tokens_none(toks.drop_last(), j);
    }
}

/// Read the block lines `lines[1..n-1]` of a text
fn parse_block_lines(chars: &[char], lines: &Vec<(usize, usize)>) -> (r: (
    Vec<(String, String)>,
    Vec<Vec<String>>,
))
    requires
        lines@.len() >= 2,
        lines@.len() == split_on(chars@, '\n').len(),
        forall|m: int|
            #![trigger lines@[m]]
            0 <= m < lines@.len() ==> lines@[m].0 <= lines@[m].1 <= chars@.len() && split_on(
                chars@,
                '\n',
            )[m] == chars@.subrange(lines@[m].0 as int, lines@[m].1 as int),
    ensures
        (args_of(r.0@), dabs_of(r.1@)) == apply_lines(
            (ArgsView::empty(), DabsView::empty()),
            split_on(chars@, '\n').subrange(1, lines@.len() - 1),
        ),
{
    let ghost ls = split_on(chars@, '\n');
    let n = lines.len();
    let mut args: Vec<(String, String)> = Vec::new();
    let mut dabs: Vec<Vec<String>> = Vec::new();
    let ghost empty = (ArgsView::empty(), DabsView::empty());
    proof {
        assert(args_of(args@) =~= ArgsView::empty());
        assert(dabs_of(dabs@) =~= DabsView::empty());
        assert(ls.subrange(1, 1) =~= Seq::<Seq<char>>::empty());
    }
    let mut i: usize = 1;
    while i < n - 1
        invariant
            1 <= i <= n - 1,
            n == lines@.len(),
            ls == split_on(chars@, '\n'),
            lines@.len() == ls.len(),
            forall|m: int|
                #![trigger lines@[m]]
                0 <= m < lines@.len() ==> lines@[m].0 <= lines@[m].1 <= chars@.len() && ls[m]
                    == chars@.subrange(lines@[m].0 as int, lines@[m].1 as int),
            empty == (ArgsView::empty(), DabsView::empty()),
            (args_of(args@), dabs_of(dabs@)) == apply_lines(empty, ls.subrange(1, i as int)),
        decreases n - 1 - i,
    {
        let (a, b) = lines[i];
        let line = vstd::slice::slice_subrange(chars, a, b);
        apply_line_exec(&mut args, &mut dabs, line);
        proof {
            assert(ls.subrange(1, i + 1).drop_last() =~= ls.subrange(1, i as int));
            assert(ls.subrange(1, i + 1).last() == line@);
        }
        i += 1;
    }
    (args, dabs)
}

/// Read the `key=value` tokens `toks[2..]` of a single line message
fn parse_line_args(line: &[char], toks: &Vec<(usize, usize)>) -> (r: Option<
    Vec<(String, String)>,
>)
    requires
        toks@.len() >= 2,
        toks@.len() == split_on(line@, ' ').len(),
        forall|m: int|
            #![trigger toks@[m]]
            0 <= m < toks@.len() ==> toks@[m].0 <= toks@[m].1 <= line@.len() && split_on(line@, ' ')[m]
                == line@.subrange(toks@[m].0 as int, toks@[m].1 as int),
    ensures
        match parse_arg_tokens(split_on(line@, ' ').subrange(2, toks@.len() as int)) {
            Some(a) => r matches Some(v) && args_of(v@) == a,
            None => r is None,
        },
{
    let ghost ts = split_on(line@, ' ');
    let mut args: Vec<(String, String)> = Vec::new();
    proof {
        assert(args_of(args@) =~= ArgsView::empty());
        assert(ts.subrange(2, 2) =~= Seq::<Seq<char>>::empty());
    }
    let mut i: usize = 2;
    while i < toks.len()
        invariant
            2 <= i <= toks@.len(),
            ts == split_on(line@, ' '),
            toks@.len() == ts.len(),
            forall|m: int|
                #![trigger toks@[m]]
                0 <= m < toks@.len() ==> toks@[m].0 <= toks@[m].1 <= line@.len() && ts[m]
                    == line@.subrange(toks@[m].0 as int, toks@[m].1 as int),
            parse_arg_tokens(ts.subrange(2, i as int)) == Some(args_of(args@)),
        decreases toks@.len() - i,
    {
        let t = vstd::slice::slice_subrange(line, toks[i].0, toks[i].1);
        let e = first_index_exec(t, '=');
        proof {
            let sub = ts.subrange(2, i + 1);
            assert(sub.drop_last() =~= ts.subrange(2, i as int));
            assert(sub.last() == t@);
        }
        if e == t.len() {
            proof {
                let rest = ts.subrange(2, ts.len() as int);
                assert(rest.take(i - 1) =~= ts.subrange(2, i + 1));
                lemma_parse_arg_tokens_none(rest, i - 1);
            }
            return None;
        }
        let k = vstd::slice::slice_subrange(t, 0, e);
        let v = vstd::slice::slice_subrange(t, e + 1, t.len());
        add_arg_line_exec(&mut args, k, v);
        i += 1;
    }
    Some(args)
}

impl TextMessage {
    /// Read a message from its text form; `None` when the text is not a message
    #[verifier::rlimit(100)]
    #[verifier::spinoff_prover]
    pub fn parse(s: &str) -> (r: Option<TextMessage>)
        ensures
            match parse_text(s@) {
                Some(t) => r matches Some(m) && (m.user_id, m.name@, m.args_view(), m.dabs_view())
                    == t,
                None => r is None,
            },
    {
        let chars = str_chars(s);
        let lines = split_ranges(chars.as_slice(), '\n');
        let ghost ls = split_on(chars@, '\n');
        proof {
            crate::protocol::pieces::lemma_join_split(chars@, '\n');
        }
        let (a0, b0) = lines[0];
        let line0 = vstd::slice::slice_subrange(chars.as_slice(), a0, b0);
        let toks = split_ranges(line0, ' ');
        let ghost ts = split_on(line0@, ' ');
        assert(ls[0] == line0@);
        if toks.len() < 2 {
            return None;
        }
        let t0 = vstd::slice::slice_subrange(line0, toks[0].0, toks[0].1);
        let user_id: u8 = match parse_int_exec(t0) {
            Some(u) => {
                if 0 <= u && u <= 255 {
                    u as u8
                } else {
                    return None;
                }
            },
            None => {
                return None;
            },
        };
        let t1 = vstd::slice::slice_subrange(line0, toks[1].0, toks[1].1);
        let name = chars_to_string(t1);
        let brace_open: Vec<char> = vec!['{'];
        assert(brace_open@ =~= seq!['{']);
        let is_block = if toks.len() == 3 {
            let t2 = vstd::slice::slice_subrange(line0, toks[2].0, toks[2].1);
            chars_eq(t2, brace_open.as_slice())
        } else {
            false
        };
        if is_block {
            let n = lines.len();
            if n < 2 {
                return None;
            }
            let last = vstd::slice::slice_subrange(chars.as_slice(), lines[n - 1].0, lines[n - 1].1);
            let brace_close: Vec<char> = vec!['}'];
            assert(brace_close@ =~= seq!['}']);
            assert(ls.last() == last@);
            if !chars_eq(last, brace_close.as_slice()) {
                return None;
            }
            let (args, dabs) = parse_block_lines(chars.as_slice(), &lines);
            Some(TextMessage { user_id, name, args, dabs })
        } else if lines.len() == 1 {
            match parse_line_args(line0, &toks) {
                Some(args) => {
                    let dabs: Vec<Vec<String>> = Vec::new();
                    assert(dabs_of(dabs@) =~= DabsView::empty());
                    Some(TextMessage { user_id, name, args, dabs })
                },
                None => None,
            }
        } else {
            None
        }
    }
}

/// The error for a text that is not a message in text form
#[derive(Debug, Clone, Copy, PartialEq, Eq, Structural)]
pub struct TextParseError;

impl std::str::FromStr for TextMessage {
    type Err = TextParseError;

    fn from_str(s: &str) -> Result<TextMessage, TextParseError> {
        match TextMessage::parse(s) {
            Some(m) => Ok(m),
            None => Err(TextParseError),
        }
    }
}

} // verus!
