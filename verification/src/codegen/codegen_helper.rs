//! A text builder that keeps track of indentation and of the spaces between
//! tokens.

use vstd::prelude::*;
use crate::utils::text::repeat;

verus! {

/// The mathematical value of a [`CodegenHelper`].
pub struct HelperModel {
    pub indent_with: Seq<char>,
    pub line_terminator: Seq<char>,
    pub indent: nat,
    pub buffer: Seq<char>,
    /// The last thing written was a token: the next token or text is set off
    /// by a space.
    pub pending_token: bool,
    /// A line was just ended: the next thing written is indented first.
    pub pending_newline: bool,
}

impl HelperModel {
    /// The builder after `data` is written. The indentation comes first if a
    /// line was just ended; then a space, if a token was just written and
    /// `respect_token` asks for it; then `data`.
    pub open spec fn written(self, data: Seq<char>, respect_token: bool) -> HelperModel {
        let indented = if self.pending_newline {
            self.buffer + repeat(self.indent_with, self.indent)
        } else {
            self.buffer
        };
        let spaced = if self.pending_token && respect_token {
            indented + seq![' ']
        } else {
            indented
        };
        HelperModel {
            buffer: spaced + data,
            pending_token: false,
            pending_newline: false,
            ..self
        }
    }

    /// After a token: set off from the token before it, and setting off what
    /// follows.
    pub open spec fn token(self, token: Seq<char>) -> HelperModel {
        HelperModel { pending_token: true, ..self.written(token, true) }
    }

    /// After a symbol: it stands directly behind what came before.
    pub open spec fn symbol(self, symbol: Seq<char>) -> HelperModel {
        self.written(symbol, false)
    }

    /// After a text: set off from a token before it.
    pub open spec fn text(self, data: Seq<char>) -> HelperModel {
        self.written(data, true)
    }

    /// After the line is ended.
    pub open spec fn end_line(self) -> HelperModel {
        HelperModel { pending_newline: true, ..self.symbol(self.line_terminator) }
    }

    /// After a text and the end of the line.
    pub open spec fn line(self, data: Seq<char>) -> HelperModel {
        self.text(data).end_line()
    }

    /// After the first `n` of `items` are written as texts, with `sep`
    /// written as a symbol between neighbours.
    pub open spec fn joined(self, items: Seq<Seq<char>>, sep: Seq<char>, n: nat) -> HelperModel
        decreases n,
    {
        if n == 0 || n > items.len() {
            self
        } else if n == 1 {
            self.text(items[0])
        } else {
            self.joined(items, sep, (n - 1) as nat).symbol(sep).text(items[n - 1])
        }
    }

    /// One level deeper.
    pub open spec fn deeper(self) -> HelperModel {
        HelperModel { indent: self.indent + 1, ..self }
    }

    /// One level less deep.
    pub open spec fn shallower(self) -> HelperModel {
        HelperModel { indent: (self.indent - 1) as nat, ..self }
    }
}

/// A text builder with a current indentation.
pub struct CodegenHelper {
    indent_with: String,
    line_terminator: String,
    indent: usize,
    buffer: String,
    pending_token: bool,
    pending_newline: bool,
}

impl View for CodegenHelper {
    type V = HelperModel;

    closed spec fn view(&self) -> HelperModel {
        HelperModel {
            indent_with: self.indent_with@,
            line_terminator: self.line_terminator@,
            indent: self.indent as nat,
            buffer: self.buffer@,
            pending_token: self.pending_token,
            pending_newline: self.pending_newline,
        }
    }
}

/// Whether `end` can come of `from` when `op` writes `item`.
pub open spec fn written_by<Item, F: Fn(CodegenHelper, &Item) -> CodegenHelper>(
    op: F,
    from: HelperModel,
    item: Item,
    end: HelperModel,
) -> bool {
    exists|inner: CodegenHelper, out: CodegenHelper|
        inner@ == from && #[trigger] op.ensures((inner, &item), out) && out@ == end
}

/// `mid` made ready for the `n`-th item: with `sep` written as a symbol
/// before every item but the first.
pub open spec fn set_off(mid: HelperModel, sep: Seq<char>, n: nat) -> HelperModel {
    if n > 1 {
        mid.symbol(sep)
    } else {
        mid
    }
}

/// Whether `end` can come of `start` when `op` writes the first `n` of
/// `items`, one after the other, with `sep` written as a symbol between
/// neighbours.
pub open spec fn joined_by<Item, F: Fn(CodegenHelper, &Item) -> CodegenHelper>(
    start: HelperModel,
    items: Seq<Item>,
    sep: Seq<char>,
    op: F,
    n: nat,
    end: HelperModel,
) -> bool
    decreases n,
{
    if n == 0 || n > items.len() {
        end == start
    } else {
        exists|mid: HelperModel|
            joined_by(start, items, sep, op, (n - 1) as nat, mid) && #[trigger] written_by(
                op,
                set_off(mid, sep, n),
                items[n - 1],
                end,
            )
    }
}

impl CodegenHelper {
    /// An empty builder at indentation 0.
    pub fn new(indent_with: &str, line_terminator: &str) -> (r: Self)
        ensures
            r@ == (HelperModel {
                indent_with: indent_with@,
                line_terminator: line_terminator@,
                indent: 0,
                buffer: Seq::empty(),
                pending_token: false,
                pending_newline: false,
            }),
    {
        CodegenHelper {
            indent_with: indent_with.to_owned(),
            line_terminator: line_terminator.to_owned(),
            indent: 0,
            buffer: String::new(),
            pending_token: false,
            pending_newline: false,
        }
    }

    /// Runs `op` one level deeper.
    pub fn with_indent<F: FnOnce(Self) -> Self>(self, op: F) -> (r: Self)
        requires
            self@.indent < usize::MAX,
            forall|inner: Self| inner@ == self@.deeper() ==> op.requires((inner,)),
            forall|inner: Self, out: Self|
                inner@ == self@.deeper() && op.ensures((inner,), out) ==> out@.indent >= 1,
        ensures
            exists|inner: Self, out: Self|
                inner@ == self@.deeper() && op.ensures((inner,), out) && r@ == out@.shallower(),
    {
        let mut inner = self;
        inner.indent += 1;
        assert(inner@.indent == self@.indent + 1);
        assert(inner@ == self@.deeper());
        let mut out = op(inner);
        let ghost reached = out;
        out.indent -= 1;
        assert(out@ == reached@.shallower());
        out
    }

    /// Runs `op` between double quotes.
    pub fn with_duouble_quote<F: FnOnce(Self) -> Self>(self, op: F) -> (r: Self)
        requires
            forall|inner: Self| inner@ == self@.text("\""@) ==> op.requires((inner,)),
        ensures
            exists|inner: Self, out: Self|
                inner@ == self@.text("\""@) && op.ensures((inner,), out) && r@ == out@.text(
                    "\""@,
                ),
    {
        let mut inner = self;
        inner.write("\"");
        let mut out = op(inner);
        let ghost reached = out;
        out.write("\"");
        out
    }

    /// Runs `op` between parentheses.
    pub fn with_parens<F: FnOnce(Self) -> Self>(self, op: F) -> (r: Self)
        requires
            forall|inner: Self| inner@ == self@.symbol("("@) ==> op.requires((inner,)),
        ensures
            exists|inner: Self, out: Self|
                inner@ == self@.symbol("("@) && op.ensures((inner,), out) && r@ == out@.symbol(
                    ")"@,
                ),
    {
        let mut inner = self;
        inner.write_symbol("(");
        let mut out = op(inner);
        out.write_symbol(")");
        out
    }

    /// Lets `op` write each of `list`, with `sep` written as a symbol between
    /// neighbours.
    pub fn iter_and_join<Item, F: Fn(Self, &Item) -> Self>(
        self,
        list: &Vec<Item>,
        sep: &str,
        op: F,
    ) -> (r: Self)
        requires
            forall|h: Self, i: int| 0 <= i < list@.len() ==> op.requires((h, &list@[i])),
        ensures
            joined_by(self@, list@, sep@, op, list@.len(), r@),
    {
        let ghost start = self@;
        let mut cur = self;
        let mut i: usize = 0;
        while i < list.len()
            invariant
                i <= list@.len(),
                forall|h: Self, k: int| 0 <= k < list@.len() ==> op.requires((h, &list@[k])),
                joined_by(start, list@, sep@, op, i as nat, cur@),
            decreases list@.len() - i,
        {
            let ghost mid = cur;
            if i > 0 {
                cur.write_symbol(sep);
            }
            let ghost inner = cur;
            cur = op(cur, &list[i]);
            proof {
                let n = (i + 1) as nat;
                assert(inner@ == set_off(mid@, sep@, n) && op.ensures(
                    (inner, &list@[i as int]),
                    cur,
                ));
                assert((n - 1) as nat == i as nat);
                assert(written_by(op, set_off(mid@, sep@, n), list@[n - 1], cur@));
            }
            i += 1;
        }
        cur
    }

    /// Writes each of `list` as a text, with `sep` as a symbol between
    /// neighbours.
    pub fn write_list(&mut self, list: &Vec<String>, sep: &str)
        ensures
            final(self)@ == old(self)@.joined(crate::utils::text::texts(list@), sep@, list@.len()),
    {
        let ghost items = crate::utils::text::texts(list@);
        let mut i: usize = 0;
        while i < list.len()
            invariant
                i <= list@.len(),
                items == crate::utils::text::texts(list@),
                self@ == old(self)@.joined(items, sep@, i as nat),
            decreases list@.len() - i,
        {
            if i > 0 {
                self.write_symbol(sep);
            }
            self.write(list[i].as_str());
            i += 1;
        }
    }

    /// One level deeper from here on.
    pub fn indent(&mut self)
        requires
            old(self)@.indent < usize::MAX,
        ensures
            final(self)@ == old(self)@.deeper(),
    {
        self.indent += 1;
    }

    /// One level less deep from here on.
    pub fn dedent(&mut self)
        requires
            old(self)@.indent > 0,
        ensures
            final(self)@ == old(self)@.shallower(),
    {
        self.indent -= 1;
    }

    /// Writes a token: a space sets it off from a token before it and from
    /// what follows.
    pub fn write_token(&mut self, token: &str)
        ensures
            final(self)@ == old(self)@.token(token@),
    {
        self.write_helper(token, true);
        self.pending_token = true;
    }

    /// Writes a symbol directly behind what came before.
    pub fn write_symbol(&mut self, symbol: &str)
        ensures
            final(self)@ == old(self)@.symbol(symbol@),
    {
        self.write_helper(symbol, false);
    }

    /// Writes a text; a space sets it off from a token before it.
    pub fn write(&mut self, data: &str)
        ensures
            final(self)@ == old(self)@.text(data@),
    {
        self.write_helper(data, true);
    }

    /// Writes a text, if one is given, and ends the line.
    pub fn write_line(&mut self, data: Option<&str>)
        ensures
            final(self)@ == (match data {
                Some(d) => old(self)@.line(d@),
                None => old(self)@.end_line(),
            }),
    {
        if let Some(data) = data {
            self.write_helper(data, true);
        }
        let terminator = self.line_terminator.clone();
        self.write_symbol(terminator.as_str());
        self.pending_newline = true;
    }

    /// The text built so far.
    pub fn serialize(self) -> (r: String)
        ensures
            r@ == self@.buffer,
    {
        self.buffer
    }

    fn write_helper(&mut self, data: &str, respect_token: bool)
        ensures
            final(self)@ == old(self)@.written(data@, respect_token),
    {
        let ghost before = self@;
        if self.pending_newline {
            let mut i: usize = 0;
            while i < self.indent
                invariant
                    i <= self.indent,
                    self@ == (HelperModel {
                        buffer: before.buffer + repeat(before.indent_with, i as nat),
                        ..before
                    }),
                decreases self.indent - i,
            {
                let ghost prior = self.buffer@;
                self.buffer.append(self.indent_with.as_str());
                assert(self.buffer@ =~= before.buffer + repeat(before.indent_with, (i + 1) as nat));
                i += 1;
            }
        }
        if self.pending_token && respect_token {
            self.buffer.append(" ");
            proof {
                reveal_strlit(" ");
                assert(" "@ =~= seq![' ']);
            }
        }
        self.buffer.append(data);
        self.pending_token = false;
        self.pending_newline = false;
    }
}

} // verus!
