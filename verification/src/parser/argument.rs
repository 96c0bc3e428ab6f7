use crate::context::Context;
use crate::cursor::Cursor;
use crate::error::ParseError;
use crate::guard::Guard;
use crate::indent::{
    calc_indent_size, indent_char, is_indent_char, spec_indent_size, spec_is_indent_char, TAB_SIZE,
};
use crate::lines::{
    after_line, block_len, empty_lines_len, first_line, indent_width, lemma_empty_lines_len,
    lemma_first_line, line_step,
};
use crate::parser::common::{
    continued, fails_with, Fault, identifier, indented_paragraph, next_line, Outcome,
    paragraph_lines, ParseResult, spec_identifier,
};
use crate::scan::{
    ascii_whitespace, ident_char, lemma_run_len, lemma_run_len_unique, lemma_run_of, other_than,
    run_len, spec_is_ident_char,
};
use crate::schema::{Argument, argument_views, ArgumentView};
use crate::text::string_views;
use vstd::prelude::*;
use vstd::string::*;

verus! {

/// The number of columns of the indentation at the start of `s`.
pub open spec fn upcoming_indent(s: Seq<char>) -> nat {
    spec_indent_size(s.take(indent_width(s) as int))
}

/// The type of an argument at the start of `s`: the text between an opening parenthesis
/// and the next closing one, and the ASCII whitespace after it. A text that does not start
/// with an opening parenthesis holds no type.
pub open spec fn spec_arg_type(s: Seq<char>) -> Outcome<Option<Seq<char>>> {
    if s.len() > 0 && s[0] == '(' {
        let inner = s.skip(1);
        let n = run_len(inner, other_than(')'));
        if n < inner.len() {
            Outcome::Done(
                Some(inner.take(n as int)),
                1 + n + 1 + run_len(inner.skip(n as int + 1), ascii_whitespace()),
            )
        } else {
            Outcome::Failed(Fault::InvalidValue("Expected )"@), 1 + n)
        }
    } else {
        Outcome::Done(None, 0)
    }
}

/// The description of an argument at the start of `s`: the rest of the line, and after
/// it, if the next line is indented by more than `baseline` columns, the lines of the
/// indented paragraph that starts there.
pub open spec fn spec_arg_desc(s: Seq<char>, baseline: nat) -> Outcome<Seq<Seq<char>>> {
    let rest = after_line(s);
    if upcoming_indent(rest) > baseline {
        Outcome::Done(
            seq![first_line(s)] + paragraph_lines(rest, baseline),
            line_step(s) + block_len(rest, baseline),
        )
    } else {
        Outcome::Done(seq![first_line(s)], line_step(s))
    }
}

/// What follows the name of an argument in `s`: ASCII whitespace, the type if there is
/// one, a colon, ASCII whitespace, and the description.
#[verifier::opaque]
pub open spec fn spec_arg_tail(name: Seq<char>, s: Seq<char>, baseline: nat) -> Outcome<
    ArgumentView,
> {
    let w1 = run_len(s, ascii_whitespace());
    match spec_arg_type(s.skip(w1 as int)) {
        Outcome::Failed(fault, used) => Outcome::Failed(fault, w1 + used),
        Outcome::Done(typ, t) => {
            let at_colon = s.skip((w1 + t) as int);
            if at_colon.len() > 0 && at_colon[0] == ':' {
                let w2 = run_len(at_colon.skip(1), ascii_whitespace());
                match spec_arg_desc(at_colon.skip(1 + w2 as int), baseline) {
                    Outcome::Failed(fault, used) => Outcome::Failed(
                        fault,
                        w1 + t + 1 + w2 + used,
                    ),
                    Outcome::Done(desc, d) => Outcome::Done(
                        ArgumentView { name, typ, desc },
                        w1 + t + 1 + w2 + d,
                    ),
                }
            } else {
                Outcome::Failed(Fault::InvalidValue("Expected :"@), w1 + t)
            }
        },
    }
}

/// One argument at the start of `s`: its name, its type if it has one, a colon and its
/// description.
pub open spec fn spec_parse_arg(s: Seq<char>, baseline: nat) -> Outcome<ArgumentView> {
    match spec_identifier(s) {
        Outcome::Failed(fault, used) => Outcome::Failed(fault, used),
        Outcome::Done(name, n) => spec_arg_tail(name, s.skip(n as int), baseline).shifted(n),
    }
}

/// An argument that was read takes one character at least and no more than the text has.
pub proof fn lemma_parse_arg_used(s: Seq<char>, baseline: nat)
    ensures
        spec_parse_arg(s, baseline).used() <= s.len(),
        spec_parse_arg(s, baseline) is Done ==> spec_parse_arg(s, baseline).used() >= 1,
{
    reveal(spec_arg_tail);
    lemma_run_len(s, ident_char());
    if spec_identifier(s) is Done {
        let n = run_len(s, ident_char());
        let s1 = s.skip(n as int);
        let w1 = run_len(s1, ascii_whitespace());
        lemma_run_len(s1, ascii_whitespace());
        let s2 = s1.skip(w1 as int);
        if s2.len() > 0 && s2[0] == '(' {
            let inner = s2.skip(1);
            let m = run_len(inner, other_than(')'));
            lemma_run_len(inner, other_than(')'));
            if m < inner.len() {
                lemma_run_len(inner.skip(m as int + 1), ascii_whitespace());
            }
        }
        if spec_arg_type(s2) is Done {
            let t = spec_arg_type(s2).used();
            let at_colon = s1.skip((w1 + t) as int);
            if at_colon.len() > 0 && at_colon[0] == ':' {
                let s3 = at_colon.skip(1);
                let w2 = run_len(s3, ascii_whitespace());
                lemma_run_len(s3, ascii_whitespace());
                let s4 = at_colon.skip(1 + w2 as int);
                lemma_first_line(s4);
                lemma_block_len(after_line(s4), baseline);
            }
        }
    }
}

/// The name of an argument that was read is an identifier: it is not empty and holds
/// nothing but letters, digits and underscores.
pub proof fn lemma_parse_arg_name(s: Seq<char>, baseline: nat)
    requires
        spec_parse_arg(s, baseline) is Done,
    ensures
        ({
            let name = spec_parse_arg(s, baseline)->Done_0.name;
            &&& name.len() >= 1
            &&& name == s.take(name.len() as int)
            &&& forall|i: int| 0 <= i < name.len() ==> spec_is_ident_char(#[trigger] name[i])
        }),
{
    reveal(spec_arg_tail);
    lemma_run_len(s, ident_char());
    let name = s.take(run_len(s, ident_char()) as int);
    assert forall|i: int| 0 <= i < name.len() implies spec_is_ident_char(#[trigger] name[i]) by {
        assert(ident_char()(s[i]));
    }
}

/// A block is no longer than the text that it is read from.
pub proof fn lemma_block_len(s: Seq<char>, baseline: nat)
    ensures
        block_len(s, baseline) <= s.len(),
    decreases s.len(),
{
    if s.len() > 0 {
        lemma_first_line(s);
        lemma_block_len(after_line(s), baseline);
    }
}

/// The number of columns of the indentation at the position. The cursor stays where it
/// is.
fn peek_indent_size<'a>(input: &Cursor<'a>) -> (r: usize)
    requires
        input.wf(),
        input.columns_fit(),
    ensures
        r == upcoming_indent(input.remaining()),
{
    let f = |c: char| -> (r: bool)
        ensures
            r == spec_is_indent_char(c),
        { is_indent_char(c) };
    let run = input.peek_while(f);
    proof {
        lemma_run_of(f, indent_char(), input.remaining(), run@.len() as int);
        input.lemma_parts();
        assert(input.remaining().len() <= input.input@.len()) by {
            assert((input.consumed() + input.remaining()).len() == input.input@.len());
        }
        assert(TAB_SIZE * run@.len() <= TAB_SIZE * input.input@.len()) by (nonlinear_arith)
            requires
                run@.len() <= input.input@.len(),
        ;
    }
    calc_indent_size(run)
}

/// Reads the type of an argument, if one stands at the position.
fn parse_arg_type<'a>(input: &mut Cursor<'a>) -> (r: ParseResult<Option<String>>)
    requires
        old(input).wf(),
    ensures
        match spec_arg_type(old(input).remaining()) {
            Outcome::Done(typ, used) => r matches Ok(t) && (match t {
                Some(text) => typ == Some(text@),
                None => typ is None,
            }) && old(input).steps_to(final(input), used as int),
            Outcome::Failed(fault, used) => fails_with(r, fault, used, old(input), final(input)),
        },
{
    let ghost start = *input;
    let ghost rem = input.remaining();
    proof {
        reveal_strlit("(");
        reveal_strlit(")");
        reveal_strlit("Expected ");
        reveal_strlit("Expected )");
        assert("Expected "@ + ")"@ =~= "Expected )"@);
        start.lemma_step(input, 0);
    }
    match input.peek() {
        Some(c) => {
            if c != '(' {
                return Ok(None);
            }
        },
        None => {
            return Ok(None);
        },
    }
    proof {
        assert("("@ =~= seq!['(']);
        assert(rem.subrange(0, 1) =~= seq![rem[0]]);
        assert(rem.skip(0) =~= rem);
    }
    match input.eat_string("(") {
        Ok(_) => {},
        Err(e) => {
            return Err(e);
        },
    }
    let ghost open = *input;
    let ghost inner = input.remaining();
    let f = |c: char| -> (r: bool)
        ensures
            r == (c == ')'),
        { c == ')' };
    let typ = input.take_until(f);
    let ghost inside = *input;
    let ghost n = typ@.len() as int;
    proof {
        assert forall|i: int| 0 <= i < n implies other_than(')')(#[trigger] inner[i]) by {
            assert(call_ensures(f, (inner[i],), false));
        }
        lemma_run_len_unique(inner, other_than(')'), n);
        start.lemma_steps_trans(&open, &inside, 1, n);
        assert(")"@ =~= seq![')']);
        if n < inner.len() {
            assert(call_ensures(f, (inner[n],), true));
            assert(inner.skip(n).subrange(0, 1) =~= seq![inner[n]]);
            assert(inner.skip(n).skip(1) =~= inner.skip(n + 1));
        }
    }
    match input.eat_string(")") {
        Ok(_) => {},
        Err(e) => {
            return Err(e);
        },
    }
    let ghost close = *input;
    input.eat_whitespace();
    proof {
        start.lemma_steps_trans(&inside, &close, 1 + n, 1);
        start.lemma_steps_trans(
            &close,
            input,
            1 + n + 1,
            run_len(inner.skip(n + 1), ascii_whitespace()) as int,
        );
    }
    Ok(Some(String::from_str(typ)))
}

/// Reads the description of an argument: the rest of the line and, if the next line is
/// indented by more than the baseline of `ctx`, the indented paragraph that starts there.
fn parse_arg_desc<'a>(input: &mut Cursor<'a>, ctx: &mut Context) -> (r: ParseResult<Vec<String>>)
    requires
        old(input).wf(),
        old(input).columns_fit(),
    ensures
        *final(ctx) == *old(ctx),
        match spec_arg_desc(old(input).remaining(), old(ctx).indent as nat) {
            Outcome::Done(desc, used) => r matches Ok(lines) && string_views(lines@) == desc
                && old(input).steps_to(final(input), used as int),
            Outcome::Failed(fault, used) => fails_with(r, fault, used, old(input), final(input)),
        },
{
    let ghost start = *input;
    let ghost rem = input.remaining();
    let desc_head = match next_line(input, ctx) {
        Ok(line) => line,
        Err(e) => {
            return Err(e);
        },
    };
    let ghost mid = *input;
    let mut desc: Vec<String> = Vec::new();
    desc.push(desc_head);
    proof {
        assert(string_views(desc@) =~= seq![first_line(rem)]);
    }
    let next_indent_size: usize = peek_indent_size(input);
    if next_indent_size > ctx.indent {
        let more = match indented_paragraph(input, ctx) {
            Ok(lines) => lines,
            Err(e) => {
                return Err(e);
            },
        };
        let ghost head = string_views(desc@);
        let mut more = more;
        desc.append(&mut more);
        proof {
            start.lemma_steps_trans(
                &mid,
                input,
                line_step(rem) as int,
                block_len(after_line(rem), ctx.indent as nat) as int,
            );
            assert(string_views(desc@) =~= head + paragraph_lines(
                after_line(rem),
                ctx.indent as nat,
            ));
        }
    }
    Ok(desc)
}

/// Reads what follows the name of an argument, and makes the argument.
fn parse_arg_tail<'a>(name: String, input: &mut Cursor<'a>, ctx: &mut Context) -> (r: ParseResult<
    Argument,
>)
    requires
        old(input).wf(),
        old(input).columns_fit(),
    ensures
        *final(ctx) == *old(ctx),
        match spec_arg_tail(name@, old(input).remaining(), old(ctx).indent as nat) {
            Outcome::Done(arg, used) => r matches Ok(a) && a@ == arg && old(input).steps_to(
                final(input),
                used as int,
            ),
            Outcome::Failed(fault, used) => fails_with(r, fault, used, old(input), final(input)),
        },
{
    let ghost start = *input;
    let ghost s = input.remaining();
    let ghost baseline = ctx.indent as nat;
    proof {
        reveal(spec_arg_tail);
    }
    input.eat_whitespace();
    let ghost spaced = *input;
    let ghost w1 = run_len(s, ascii_whitespace()) as int;
    let typ = match parse_arg_type(input) {
        Ok(typ) => typ,
        Err(e) => {
            proof {
                start.lemma_steps_trans(
                    &spaced,
                    input,
                    w1,
                    spec_arg_type(s.skip(w1)).used() as int,
                );
            }
            return Err(e);
        },
    };
    let ghost typed = *input;
    let ghost t = spec_arg_type(s.skip(w1)).used() as int;
    let ghost at_colon = s.skip(w1 + t);
    proof {
        start.lemma_steps_trans(&spaced, &typed, w1, t);
        assert(typed.remaining() == at_colon);
        reveal_strlit(":");
        reveal_strlit("Expected ");
        reveal_strlit("Expected :");
        assert("Expected "@ + ":"@ =~= "Expected :"@);
        assert(":"@ =~= seq![':']);
        if at_colon.len() > 0 {
            assert(at_colon.subrange(0, 1) =~= seq![at_colon[0]]);
            assert(seq![':'][0] == ':');
            assert(seq![at_colon[0]][0] == at_colon[0]);
            if at_colon[0] == ':' {
                assert(":"@.is_prefix_of(at_colon));
            }
            if ":"@.is_prefix_of(at_colon) {
                assert(at_colon[0] == ':');
            }
        }
    }
    match input.eat_string(":") {
        Ok(_) => {},
        Err(e) => {
            return Err(e);
        },
    }
    let ghost colon = *input;
    input.eat_whitespace();
    let ghost ready = *input;
    let ghost w2 = run_len(at_colon.skip(1), ascii_whitespace()) as int;
    proof {
        start.lemma_steps_trans(&typed, &colon, w1 + t, 1);
        start.lemma_steps_trans(&colon, &ready, w1 + t + 1, w2);
        assert(at_colon.skip(1).skip(w2) =~= at_colon.skip(1 + w2));
        assert(ready.remaining() == at_colon.skip(1 + w2));
    }
    let desc = match parse_arg_desc(input, ctx) {
        Ok(desc) => desc,
        Err(e) => {
            return Err(e);
        },
    };
    proof {
        start.lemma_steps_trans(
            &ready,
            input,
            w1 + t + 1 + w2,
            spec_arg_desc(at_colon.skip(1 + w2), baseline).used() as int,
        );
    }
    Ok(Argument { name, typ, desc })
}

/// Reads one argument: its name, its type in parentheses if it has one, a colon and its
/// description. Where it fails, the cursor stays at the place that the error names.
pub fn parse_arg<'a>(input: &mut Cursor<'a>, ctx: &mut Context) -> (r: ParseResult<Argument>)
    requires
        old(input).wf(),
        old(input).columns_fit(),
    ensures
        *final(ctx) == *old(ctx),
        match spec_parse_arg(old(input).remaining(), old(ctx).indent as nat) {
            Outcome::Done(arg, used) => r matches Ok(a) && a@ == arg && old(input).steps_to(
                final(input),
                used as int,
            ),
            Outcome::Failed(fault, used) => fails_with(r, fault, used, old(input), final(input)),
        },
{
    let ghost start = *input;
    let ghost rem = input.remaining();
    let name = match identifier(input, ctx) {
        Ok(name) => name,
        Err(e) => {
            return Err(e);
        },
    };
    let ghost named = *input;
    let ghost n = run_len(rem, ident_char()) as int;
    let r = parse_arg_tail(name, input, ctx);
    proof {
        start.lemma_steps_trans(
            &named,
            input,
            n,
            spec_arg_tail(rem.take(n), rem.skip(n), ctx.indent as nat).used() as int,
        );
    }
    r
}

/// The arguments from the start of `s`, which is the start of a line: each one stands on
/// a line that is indented by more than `baseline` columns, is read with its own
/// indentation as the baseline, and is followed by any number of empty lines. The first
/// line that is not indented by more than `baseline` columns ends the list.
#[verifier::opaque]
pub open spec fn spec_args_loop(s: Seq<char>, baseline: nat) -> Outcome<Seq<ArgumentView>>
    decreases s.len(),
{
    let width = indent_width(s);
    let size = upcoming_indent(s);
    if size <= baseline {
        Outcome::Done(seq![], 0)
    } else {
        let body = s.skip(width as int);
        match spec_parse_arg(body, size) {
            Outcome::Failed(fault, used) => Outcome::Failed(fault, width + used),
            Outcome::Done(arg, used) => {
                proof {
                    lemma_run_len(s, indent_char());
                    lemma_parse_arg_used(body, size);
                    lemma_empty_lines_len(body.skip(used as int));
                }
                let rest = body.skip(used as int);
                let empty = empty_lines_len(rest);
                continued(
                    seq![arg],
                    width + used + empty,
                    spec_args_loop(rest.skip(empty as int), baseline),
                )
            },
        }
    }
}

/// A list of arguments is read from no more text than there is.
pub proof fn lemma_args_loop_used(s: Seq<char>, baseline: nat)
    ensures
        spec_args_loop(s, baseline).used() <= s.len(),
    decreases s.len(),
{
    reveal(spec_args_loop);
    let width = indent_width(s);
    let size = upcoming_indent(s);
    if size > baseline {
        let body = s.skip(width as int);
        lemma_run_len(s, indent_char());
        lemma_parse_arg_used(body, size);
        if spec_parse_arg(body, size) is Done {
            let used = spec_parse_arg(body, size).used();
            let rest = body.skip(used as int);
            lemma_empty_lines_len(rest);
            lemma_args_loop_used(rest.skip(empty_lines_len(rest) as int), baseline);
        }
    }
}

/// A list of arguments is read from no more text than there is.
pub proof fn lemma_parse_args_used(s: Seq<char>, baseline: nat)
    ensures
        spec_parse_args(s, baseline).used() <= s.len(),
{
    lemma_empty_lines_len(s);
    lemma_args_loop_used(s.skip(empty_lines_len(s) as int), baseline);
}

/// The list of arguments at the start of `s`, after any number of empty lines.
pub open spec fn spec_parse_args(s: Seq<char>, baseline: nat) -> Outcome<Seq<ArgumentView>> {
    spec_args_loop(s.skip(empty_lines_len(s) as int), baseline).shifted(empty_lines_len(s))
}

/// A list of arguments ends before a line that is indented by no more than the baseline:
/// where such a line comes first after the empty lines, the list is empty, and the line
/// is left unread.
pub proof fn lemma_args_stop_at_baseline(s: Seq<char>, baseline: nat)
    requires
        upcoming_indent(s.skip(empty_lines_len(s) as int)) <= baseline,
    ensures
        spec_parse_args(s, baseline) == Outcome::Done(
            Seq::<ArgumentView>::empty(),
            empty_lines_len(s),
        ),
{
    reveal(spec_args_loop);
}

/// The arguments of a list come in the order of the text: the list that begins with an
/// argument and goes on after the empty lines behind it holds that argument first.
pub proof fn lemma_args_in_order(s: Seq<char>, baseline: nat)
    requires
        upcoming_indent(s) > baseline,
        spec_parse_arg(s.skip(indent_width(s) as int), upcoming_indent(s)) is Done,
    ensures
        ({
            let first = spec_parse_arg(s.skip(indent_width(s) as int), upcoming_indent(s));
            let rest = s.skip(indent_width(s) as int).skip(first.used() as int);
            let next = spec_args_loop(rest.skip(empty_lines_len(rest) as int), baseline);
            match spec_args_loop(s, baseline) {
                Outcome::Done(args, used) => next matches Outcome::Done(more, _) && args == seq![
                    first->Done_0,
                ] + more && used == indent_width(s) + first.used() + empty_lines_len(rest)
                    + next.used(),
                Outcome::Failed(fault, used) => next matches Outcome::Failed(f, _) && fault == f
                    && used == indent_width(s) + first.used() + empty_lines_len(rest)
                    + next.used(),
            }
        }),
{
    reveal(spec_args_loop);
}

/// A list of arguments fails where its first argument fails.
pub proof fn lemma_args_fail_first(s: Seq<char>, baseline: nat)
    requires
        upcoming_indent(s) > baseline,
        spec_parse_arg(s.skip(indent_width(s) as int), upcoming_indent(s)) is Failed,
    ensures
        ({
            let first = spec_parse_arg(s.skip(indent_width(s) as int), upcoming_indent(s));
            spec_args_loop(s, baseline) == Outcome::<Seq<ArgumentView>>::Failed(
                first->Failed_0,
                indent_width(s) + first.used(),
            )
        }),
{
    reveal(spec_args_loop);
}

/// A list of arguments is empty where its first line is indented by no more than the
/// baseline.
pub proof fn lemma_args_end(s: Seq<char>, baseline: nat)
    requires
        upcoming_indent(s) <= baseline,
    ensures
        spec_args_loop(s, baseline) == Outcome::Done(Seq::<ArgumentView>::empty(), 0),
{
    reveal(spec_args_loop);
}

/// Reads the argument on the line at the position, which is indented by
/// `next_indent_size` columns, and the empty lines after it.
fn parse_next_arg<'a>(input: &mut Cursor<'a>, ctx: &mut Context, next_indent_size: usize) -> (r:
    ParseResult<Argument>)
    requires
        old(input).wf(),
        old(input).columns_fit(),
        next_indent_size == upcoming_indent(old(input).remaining()),
    ensures
        *final(ctx) == *old(ctx),
        final(input).wf(),
        final(input).columns_fit(),
        ({
            let s = old(input).remaining();
            let width = indent_width(s);
            match spec_parse_arg(s.skip(width as int), next_indent_size as nat) {
                Outcome::Done(arg, used) => {
                    let empty = empty_lines_len(s.skip(width as int).skip(used as int));
                    &&& r matches Ok(a) && a@ == arg
                    &&& old(input).steps_to(final(input), (width + used + empty) as int)
                },
                Outcome::Failed(fault, used) => fails_with(
                    r,
                    fault,
                    width + used,
                    old(input),
                    final(input),
                ),
            }
        }),
{
    let ghost s = input.remaining();
    let ghost at_line = *input;
    let ctx_guard = ctx.guard(Context::new(next_indent_size));
    let width: usize = input.eat_indent();
    let ghost at_arg = *input;
    let ghost body = s.skip(width as int);
    let parsed = parse_arg(input, ctx);
    ctx_guard.restore(ctx);
    let ghost used = spec_parse_arg(body, next_indent_size as nat).used() as int;
    let ghost after_arg = *input;
    proof {
        at_line.lemma_steps_trans(&at_arg, &after_arg, width as int, used);
    }
    match parsed {
        Ok(arg) => {
            input.eat_empty_lines();
            proof {
                at_line.lemma_steps_trans(
                    &after_arg,
                    input,
                    width + used,
                    empty_lines_len(body.skip(used)) as int,
                );
            }
            Ok(arg)
        },
        Err(e) => Err(e),
    }
}

/// Reads a list of arguments: after any number of empty lines, one argument from each
/// line that is indented by more than the baseline of `ctx`.
///
/// Each argument is read under a guard that makes the indentation of its line the
/// baseline, and the guard is released whether the argument was read or not. The first
/// line that is not indented by more than the baseline ends the list and is not read.
pub fn parse_args<'a>(input: &mut Cursor<'a>, ctx: &mut Context) -> (r: Result<
    Vec<Argument>,
    ParseError,
>)
    requires
        old(input).wf(),
        old(input).columns_fit(),
    ensures
        *final(ctx) == *old(ctx),
        match spec_parse_args(old(input).remaining(), old(ctx).indent as nat) {
            Outcome::Done(args, used) => r matches Ok(v) && argument_views(v@) == args && old(
                input,
            ).steps_to(final(input), used as int),
            Outcome::Failed(fault, used) => fails_with(r, fault, used, old(input), final(input)),
        },
{
    let ghost start = *input;
    let ghost rem0 = input.remaining();
    let ghost baseline = ctx.indent as nat;
    let mut args: Vec<Argument> = Vec::new();
    input.eat_empty_lines();
    let ghost mut done: int = empty_lines_len(rem0) as int;
    proof {
        assert(argument_views(args@) =~= Seq::<ArgumentView>::empty());
        let first = spec_args_loop(input.remaining(), baseline);
        if first is Done {
            assert(argument_views(args@) + first->Done_0 =~= first->Done_0);
        }
    }
    loop
        invariant
            input.wf(),
            input.columns_fit(),
            *ctx == *old(ctx),
            baseline == ctx.indent as nat,
            start == *old(input),
            rem0 == start.remaining(),
            0 <= done,
            start.steps_to(input, done),
            spec_parse_args(rem0, baseline) == continued(
                argument_views(args@),
                done as nat,
                spec_args_loop(input.remaining(), baseline),
            ),
        decreases input.remaining().len(),
    {
        let ghost s = input.remaining();
        let ghost at_line = *input;
        let ghost seen = argument_views(args@);
        let next_indent_size: usize = peek_indent_size(input);
        if next_indent_size <= ctx.indent {
            proof {
                lemma_args_end(s, baseline);
                assert(seen + Seq::<ArgumentView>::empty() =~= seen);
            }
            return Ok(args);
        }
        let ghost width = indent_width(s) as int;
        let ghost first = spec_parse_arg(s.skip(width), next_indent_size as nat);
        proof {
            lemma_run_len(s, indent_char());
            lemma_parse_arg_used(s.skip(width), next_indent_size as nat);
            if first is Done {
                lemma_empty_lines_len(s.skip(width).skip(first.used() as int));
                lemma_args_in_order(s, baseline);
            } else {
                lemma_args_fail_first(s, baseline);
            }
        }
        match parse_next_arg(input, ctx, next_indent_size) {
            Ok(arg) => {
                args.push(arg);
            },
            Err(e) => {
                proof {
                    start.lemma_steps_trans(&at_line, input, done, width + first.used());
                }
                return Err(e);
            },
        }
        proof {
            let rest = s.skip(width).skip(first.used() as int);
            let empty = empty_lines_len(rest) as int;
            let step = width + first.used() + empty;
            start.lemma_steps_trans(&at_line, input, done, step);
            assert(s.skip(step) =~= rest.skip(empty));
            let tail = spec_args_loop(rest.skip(empty), baseline);
            assert(argument_views(args@) =~= seen + seq![first->Done_0]);
            if tail is Done {
                assert(seen + (seq![first->Done_0] + tail->Done_0) =~= argument_views(args@)
                    + tail->Done_0);
            }
            done = done + step;
        }
    }
}

} // verus!
