//! The export codec: a deterministic textual form for a collection, and
//! its parser.  The text lays a collection out as an optional `prefix`
//! line (omitted when the prefix is empty), a `parameters:` header, and
//! three indented lines per entry (the key, its value, its type tag).
//! Keys and values are escaped so that any string survives the line
//! structure, and parsing a serialized collection yields it back exactly.

use vstd::prelude::*;

use crate::parameter_store::CollectionModel;
use crate::parameter_store::EntrySeq;
use crate::parameter_store::ParamModel;
use crate::parameter_store::Parameter;
use crate::parameter_store::ParameterCollection;
use crate::parameter_store::ParameterType;
use crate::parameter_store::insert_entry;
use crate::parameter_store::is_valid_tag;
use crate::parameter_store::str_eq;
use crate::parameter_store::str_starts_with;
use crate::parameter_store::type_of_tag;
use crate::parameter_store::unique_keys;

verus! {

/// How one character is written inside a line: backslashes, newlines and
/// carriage returns are escaped, everything else stands for itself.
pub open spec fn esc_char(c: char) -> Seq<char> {
    if c == '\\' {
        seq!['\\', '\\']
    } else if c == '\n' {
        seq!['\\', 'n']
    } else if c == '\r' {
        seq!['\\', 'r']
    } else {
        seq![c]
    }
}

/// The escaped form of a string.
pub open spec fn escape(s: Seq<char>) -> Seq<char>
    decreases s.len(),
{
    if s.len() == 0 {
        Seq::empty()
    } else {
        esc_char(s[0]) + escape(s.skip(1))
    }
}

/// The inverse of `escape`: rejects a trailing backslash and unknown
/// escape pairs.
pub open spec fn unescape(s: Seq<char>) -> Option<Seq<char>>
    decreases s.len(),
{
    if s.len() == 0 {
        Some(Seq::empty())
    } else if s[0] == '\\' {
        if s.len() < 2 {
            None
        } else {
            let c = if s[1] == '\\' {
                Some('\\')
            } else if s[1] == 'n' {
                Some('\n')
            } else if s[1] == 'r' {
                Some('\r')
            } else {
                None
            };
            match (c, unescape(s.skip(2))) {
                (Some(c), Some(rest)) => Some(seq![c] + rest),
                _ => None,
            }
        }
    } else {
        match unescape(s.skip(1)) {
            Some(rest) => Some(seq![s[0]] + rest),
            None => None,
        }
    }
}

/// Escaping leaves no newline behind, so escaped text never breaks the
/// line structure.
pub proof fn lemma_escape_no_newline(s: Seq<char>)
    ensures
        forall|i: int| 0 <= i < escape(s).len() ==> escape(s)[i] != '\n',
    decreases s.len(),
{
    if s.len() == 0 {
    } else {
        lemma_escape_no_newline(s.skip(1));
        let head = esc_char(s[0]);
        assert(forall|i: int| 0 <= i < head.len() ==> head[i] != '\n');
        assert(forall|i: int|
            head.len() <= i < escape(s).len() ==> escape(s)[i] == escape(s.skip(1))[i
                - head.len()]);
    }
}

/// Unescaping undoes escaping.
pub proof fn lemma_unescape_escape(s: Seq<char>)
    ensures
        unescape(escape(s)) == Some(s),
    decreases s.len(),
{
    if s.len() == 0 {
    } else {
        lemma_unescape_escape(s.skip(1));
        let head = esc_char(s[0]);
        let e = escape(s);
        assert(e == head + escape(s.skip(1)));
        if s[0] == '\\' || s[0] == '\n' || s[0] == '\r' {
            assert(head.len() == 2);
            assert(e[0] == '\\');
            assert(e.skip(2) =~= escape(s.skip(1)));
            assert(seq![s[0]] + s.skip(1) =~= s);
        } else {
            assert(head.len() == 1);
            assert(e[0] == s[0]);
            assert(e[0] != '\\');
            assert(e.skip(1) =~= escape(s.skip(1)));
            assert(seq![s[0]] + s.skip(1) =~= s);
        }
    }
}

/// Escaping one character more extends the escaped text by that
/// character's form.
pub proof fn lemma_escape_snoc(t: Seq<char>, c: char)
    ensures
        escape(t.push(c)) == escape(t) + esc_char(c),
    decreases t.len(),
{
    if t.len() == 0 {
        assert(t.push(c)[0] == c);
        assert(t.push(c).skip(1) =~= Seq::<char>::empty());
        assert(escape(t.push(c)) == esc_char(c) + escape(Seq::<char>::empty()));
        assert(esc_char(c) + Seq::<char>::empty() =~= esc_char(c));
        assert(escape(t) + esc_char(c) =~= esc_char(c));
    } else {
        assert(t.push(c)[0] == t[0]);
        assert(t.push(c).skip(1) =~= t.skip(1).push(c));
        lemma_escape_snoc(t.skip(1), c);
        assert(escape(t.push(c)) == esc_char(t[0]) + (escape(t.skip(1)) + esc_char(c)));
        assert(esc_char(t[0]) + (escape(t.skip(1)) + esc_char(c)) =~= (esc_char(t[0]) + escape(
            t.skip(1),
        )) + esc_char(c));
    }
}

/// The escaped form of a string, built for writing out.
pub fn escape_str(s: &str) -> (r: String)
    ensures
        r@ == escape(s@),
{
    let len = s.unicode_len();
    let mut out = String::new();
    let mut i: usize = 0;
    while i < len
        invariant
            0 <= i <= len,
            len == s@.len(),
            out@ == escape(s@.take(i as int)),
        decreases len - i,
    {
        let c = s.get_char(i);
        let ghost before = out@;
        if c == '\\' {
            out.append("\\\\");
            proof {
                reveal_strlit("\\\\");
                assert("\\\\"@ =~= esc_char(c));
            }
        } else if c == '\n' {
            out.append("\\n");
            proof {
                reveal_strlit("\\n");
                assert("\\n"@ =~= esc_char(c));
            }
        } else if c == '\r' {
            out.append("\\r");
            proof {
                reveal_strlit("\\r");
                assert("\\r"@ =~= esc_char(c));
            }
        } else {
            let piece = s.substring_char(i, i + 1);
            out.append(piece);
            proof {
                assert(piece@ =~= esc_char(c));
            }
        }
        proof {
            lemma_escape_snoc(s@.take(i as int), c);
            assert(s@.take(i + 1) =~= s@.take(i as int).push(c));
            assert(out@ == escape(s@.take(i + 1)));
        }
        i = i + 1;
    }
    proof {
        assert(s@.take(len as int) =~= s@);
    }
    out
}

/// The original form of escaped text, or nothing when the text is not a
/// well-formed escaping.
pub fn unescape_str(s: &str) -> (r: Option<String>)
    ensures
        match r {
            Some(t) => unescape(s@) == Some(t@),
            None => unescape(s@) is None,
        },
{
    let len = s.unicode_len();
    let mut out = String::new();
    proof {
        assert(s@.skip(0) =~= s@);
        match unescape(s@) {
            Some(rest) => {
                assert(Seq::<char>::empty() + rest =~= rest);
            },
            None => {},
        }
    }
    let mut i: usize = 0;
    while i < len
        invariant
            0 <= i <= len,
            len == s@.len(),
            match unescape(s@.skip(i as int)) {
                Some(rest) => unescape(s@) == Some(out@ + rest),
                None => unescape(s@) is None,
            },
        decreases len - i,
    {
        let ghost remaining = s@.skip(i as int);
        let ghost before = out@;
        let c = s.get_char(i);
        proof {
            assert(remaining[0] == c);
        }
        if c == '\\' {
            if i + 1 >= len {
                proof {
                    assert(remaining.len() < 2);
                    assert(unescape(remaining) is None);
                }
                return None;
            }
            let c2 = s.get_char(i + 1);
            proof {
                assert(remaining[1] == c2);
                assert(remaining.skip(2) =~= s@.skip(i + 2));
            }
            if c2 == '\\' {
                out.append("\\");
                proof {
                    reveal_strlit("\\");
                    assert("\\"@ =~= seq!['\\']);
                }
            } else if c2 == 'n' {
                out.append("\n");
                proof {
                    reveal_strlit("\n");
                    assert("\n"@ =~= seq!['\n']);
                }
            } else if c2 == 'r' {
                out.append("\r");
                proof {
                    reveal_strlit("\r");
                    assert("\r"@ =~= seq!['\r']);
                }
            } else {
                proof {
                    assert(unescape(remaining) is None);
                }
                return None;
            }
            proof {
                let ghost decoded = if c2 == '\\' {
                    '\\'
                } else if c2 == 'n' {
                    '\n'
                } else {
                    '\r'
                };
                assert(out@ == before + seq![decoded]);
                match unescape(s@.skip(i + 2)) {
                    Some(rest) => {
                        assert(unescape(remaining) == Some(seq![decoded] + rest));
                        assert(before + (seq![decoded] + rest) =~= (before + seq![decoded])
                            + rest);
                    },
                    None => {
                        assert(unescape(remaining) is None);
                    },
                }
            }
            i = i + 2;
        } else {
            let piece = s.substring_char(i, i + 1);
            out.append(piece);
            proof {
                assert(piece@ =~= seq![c]);
                assert(out@ == before + seq![c]);
                assert(remaining.skip(1) =~= s@.skip(i + 1));
                match unescape(s@.skip(i + 1)) {
                    Some(rest) => {
                        assert(unescape(remaining) == Some(seq![c] + rest));
                        assert(before + (seq![c] + rest) =~= (before + seq![c]) + rest);
                    },
                    None => {
                        assert(unescape(remaining) is None);
                    },
                }
            }
            i = i + 1;
        }
    }
    proof {
        assert(s@.skip(len as int) =~= Seq::<char>::empty());
    }
    Some(out)
}

/// A line: text free of newlines.
pub open spec fn line_ok(l: Seq<char>) -> bool {
    forall|i: int| 0 <= i < l.len() ==> l[i] != '\n'
}

/// Every line of the list is newline-free.
pub open spec fn lines_ok(ls: Seq<Seq<char>>) -> bool {
    forall|i: int| 0 <= i < ls.len() ==> line_ok(#[trigger] ls[i])
}

/// The text of a line list: each line followed by a newline.
pub open spec fn join_lines(ls: Seq<Seq<char>>) -> Seq<char>
    decreases ls.len(),
{
    if ls.len() == 0 {
        Seq::empty()
    } else {
        ls[0] + seq!['\n'] + join_lines(ls.skip(1))
    }
}

/// The position of the first newline, or -1 when there is none.
pub open spec fn first_newline(s: Seq<char>) -> int
    decreases s.len(),
{
    if s.len() == 0 {
        -1
    } else if s[0] == '\n' {
        0
    } else {
        let r = first_newline(s.skip(1));
        if r < 0 {
            -1
        } else {
            r + 1
        }
    }
}

/// The inverse of `join_lines`: the text cut at each newline.  Text after
/// the last newline is rejected, so a well-formed text ends with a newline
/// or is empty.
pub open spec fn split_lines(s: Seq<char>) -> Option<Seq<Seq<char>>>
    decreases s.len(),
    via split_lines_decreases
{
    if s.len() == 0 {
        Some(Seq::empty())
    } else {
        let i = first_newline(s);
        if i < 0 {
            None
        } else {
            match split_lines(s.skip(i + 1)) {
                Some(rest) => Some(seq![s.take(i)] + rest),
                None => None,
            }
        }
    }
}

#[via_fn]
proof fn split_lines_decreases(s: Seq<char>) {
    lemma_first_newline(s);
}

/// `first_newline` finds exactly the first newline.
pub proof fn lemma_first_newline(s: Seq<char>)
    ensures
        first_newline(s) < 0 ==> line_ok(s),
        first_newline(s) >= 0 ==> {
            let i = first_newline(s);
            &&& i < s.len()
            &&& s[i] == '\n'
            &&& forall|j: int| 0 <= j < i ==> s[j] != '\n'
        },
    decreases s.len(),
{
    if s.len() == 0 {
    } else if s[0] == '\n' {
    } else {
        lemma_first_newline(s.skip(1));
        let rest = s.skip(1);
        assert(forall|j: int| 0 <= j < rest.len() ==> rest[j] == s[j + 1]);
        let r = first_newline(rest);
        if r < 0 {
            assert forall|j: int| 0 <= j < s.len() implies s[j] != '\n' by {
                if j > 0 {
                    assert(rest[j - 1] != '\n');
                }
            }
        } else {
            assert(s[r + 1] == '\n');
            assert forall|j: int| 0 <= j < r + 1 implies s[j] != '\n' by {
                if j > 0 {
                    assert(rest[j - 1] != '\n');
                }
            }
        }
    }
}

/// The first newline of `l + '\n' + rest` closes the line `l`.
pub proof fn lemma_first_newline_at(l: Seq<char>, rest: Seq<char>)
    requires
        line_ok(l),
    ensures
        first_newline(l + seq!['\n'] + rest) == l.len(),
    decreases l.len(),
{
    let s = l + seq!['\n'] + rest;
    if l.len() == 0 {
        assert(s[0] == '\n');
    } else {
        assert(s[0] == l[0]);
        assert(s[0] != '\n');
        lemma_first_newline_at(l.skip(1), rest);
        assert(s.skip(1) =~= l.skip(1) + seq!['\n'] + rest);
    }
}

/// Splitting one joined line peels it off.
pub proof fn lemma_split_join_step(l: Seq<char>, rest: Seq<char>)
    requires
        line_ok(l),
    ensures
        split_lines(l + seq!['\n'] + rest) == match split_lines(rest) {
            Some(x) => Some(seq![l] + x),
            None => None::<Seq<Seq<char>>>,
        },
{
    let s = l + seq!['\n'] + rest;
    lemma_first_newline_at(l, rest);
    assert(s.len() > 0);
    assert(s.take(l.len() as int) =~= l);
    assert(s.skip(l.len() as int + 1) =~= rest);
}

/// Splitting undoes joining, line by line.
pub proof fn lemma_split_join(ls: Seq<Seq<char>>)
    requires
        lines_ok(ls),
    ensures
        split_lines(join_lines(ls)) == Some(ls),
    decreases ls.len(),
{
    if ls.len() == 0 {
    } else {
        lemma_split_join(ls.skip(1));
        lemma_split_join_step(ls[0], join_lines(ls.skip(1)));
        assert(seq![ls[0]] + ls.skip(1) =~= ls);
    }
}

/// The three lines of one serialized entry: the escaped key with a colon,
/// the escaped value, the type tag.
pub open spec fn entry_lines(k: Seq<char>, v: ParamModel) -> Seq<Seq<char>> {
    seq![
        "  "@ + escape(k) + ":"@,
        "    value: "@ + escape(v.value),
        "    type: "@ + v.ty.tag_spec(),
    ]
}

/// The lines of all entries, in order.
pub open spec fn entries_lines(entries: EntrySeq) -> Seq<Seq<char>>
    decreases entries.len(),
{
    if entries.len() == 0 {
        Seq::empty()
    } else {
        entry_lines(entries[0].0, entries[0].1) + entries_lines(entries.skip(1))
    }
}

/// The lines of a whole collection: the prefix line (omitted when the
/// prefix is empty), the `parameters:` header, then the entries.
pub open spec fn doc_lines(m: CollectionModel) -> Seq<Seq<char>> {
    if m.prefix.len() == 0 {
        seq!["parameters:"@] + entries_lines(m.entries)
    } else {
        seq!["prefix: "@ + escape(m.prefix), "parameters:"@] + entries_lines(m.entries)
    }
}

/// The deterministic textual form of a collection.
pub open spec fn serialize_spec(m: CollectionModel) -> Seq<char> {
    join_lines(doc_lines(m))
}

/// Mathematical model of the parse failures, payloads as character
/// sequences.
pub ghost enum FormatErrorModel {
    /// The text does not end with a newline (or a line was left open).
    MissingFinalNewline,
    /// The `parameters:` header line is absent or malformed.
    MissingParametersHeader,
    /// A key, value or prefix holds a malformed escape.
    BadEscape,
    /// An entry's key line is not an indented key followed by a colon.
    BadKeyLine,
    /// An entry's value line is missing its label.
    BadValueLine,
    /// An entry's type line is missing its label.
    BadTypeLine,
    /// An entry was cut short of its three lines.
    IncompleteEntry,
    /// An unrecognized type tag; carries the malformed input.
    InvalidParameterType(Seq<char>),
}

/// A structured-text parse failure.  Always fatal to the operation that
/// contains it; re-attempting with corrected text is the caller's concern.
#[derive(Debug)]
pub enum FormatError {
    /// The text does not end with a newline (or a line was left open).
    MissingFinalNewline,
    /// The `parameters:` header line is absent or malformed.
    MissingParametersHeader,
    /// A key, value or prefix holds a malformed escape.
    BadEscape,
    /// An entry's key line is not an indented key followed by a colon.
    BadKeyLine,
    /// An entry's value line is missing its label.
    BadValueLine,
    /// An entry's type line is missing its label.
    BadTypeLine,
    /// An entry was cut short of its three lines.
    IncompleteEntry,
    /// An unrecognized type tag; carries the malformed input.
    InvalidParameterType(String),
}

impl View for FormatError {
    type V = FormatErrorModel;

    open spec fn view(&self) -> FormatErrorModel {
        match self {
            FormatError::MissingFinalNewline => FormatErrorModel::MissingFinalNewline,
            FormatError::MissingParametersHeader => FormatErrorModel::MissingParametersHeader,
            FormatError::BadEscape => FormatErrorModel::BadEscape,
            FormatError::BadKeyLine => FormatErrorModel::BadKeyLine,
            FormatError::BadValueLine => FormatErrorModel::BadValueLine,
            FormatError::BadTypeLine => FormatErrorModel::BadTypeLine,
            FormatError::IncompleteEntry => FormatErrorModel::IncompleteEntry,
            FormatError::InvalidParameterType(s) => FormatErrorModel::InvalidParameterType(s@),
        }
    }
}

/// Parses the entry lines into the list of entries they spell, in file
/// order, duplicates included.
pub open spec fn parse_entry_lines(ls: Seq<Seq<char>>) -> Result<EntrySeq, FormatErrorModel>
    decreases ls.len(),
{
    if ls.len() == 0 {
        Ok(Seq::empty())
    } else if ls.len() < 3 {
        Err(FormatErrorModel::IncompleteEntry)
    } else {
        let kl = ls[0];
        let vl = ls[1];
        let tl = ls[2];
        if !(kl.len() >= 3 && kl.take(2) == "  "@ && kl[kl.len() - 1] == ':') {
            Err(FormatErrorModel::BadKeyLine)
        } else {
            match unescape(kl.subrange(2, kl.len() - 1)) {
                None => Err(FormatErrorModel::BadEscape),
                Some(k) => if !(vl.len() >= 11 && vl.take(11) == "    value: "@) {
                    Err(FormatErrorModel::BadValueLine)
                } else {
                    match unescape(vl.skip(11)) {
                        None => Err(FormatErrorModel::BadEscape),
                        Some(v) => if !(tl.len() >= 10 && tl.take(10) == "    type: "@) {
                            Err(FormatErrorModel::BadTypeLine)
                        } else {
                            let tag = tl.skip(10);
                            if !is_valid_tag(tag) {
                                Err(FormatErrorModel::InvalidParameterType(tag))
                            } else {
                                match parse_entry_lines(ls.skip(3)) {
                                    Err(e) => Err(e),
                                    Ok(rest) => Ok(
                                        seq![(k, ParamModel { value: v, ty: type_of_tag(tag) })]
                                            + rest,
                                    ),
                                }
                            }
                        },
                    }
                },
            }
        }
    }
}

/// The entry list after applying map semantics in file order: a repeated
/// key keeps its first position and the last occurrence's parameter.
pub open spec fn dedup_entries(es: EntrySeq) -> EntrySeq
    decreases es.len(),
{
    if es.len() == 0 {
        Seq::empty()
    } else {
        insert_entry(dedup_entries(es.drop_last()), es.last().0, es.last().1)
    }
}

/// Parses a full line list: an optional prefix line, the `parameters:`
/// header, then the entries.
pub open spec fn parse_lines(ls: Seq<Seq<char>>) -> Result<CollectionModel, FormatErrorModel> {
    if ls.len() == 0 {
        Err(FormatErrorModel::MissingParametersHeader)
    } else if ls[0].len() >= 8 && ls[0].take(8) == "prefix: "@ {
        match unescape(ls[0].skip(8)) {
            None => Err(FormatErrorModel::BadEscape),
            Some(p) => if ls.len() < 2 || ls[1] != "parameters:"@ {
                Err(FormatErrorModel::MissingParametersHeader)
            } else {
                match parse_entry_lines(ls.skip(2)) {
                    Err(e) => Err(e),
                    Ok(es) => Ok(CollectionModel { prefix: p, entries: dedup_entries(es) }),
                }
            },
        }
    } else if ls[0] == "parameters:"@ {
        match parse_entry_lines(ls.skip(1)) {
            Err(e) => Err(e),
            Ok(es) => Ok(
                CollectionModel { prefix: Seq::empty(), entries: dedup_entries(es) },
            ),
        }
    } else {
        Err(FormatErrorModel::MissingParametersHeader)
    }
}

/// Parses a whole document.
pub open spec fn parse_spec(s: Seq<char>) -> Result<CollectionModel, FormatErrorModel> {
    match split_lines(s) {
        None => Err(FormatErrorModel::MissingFinalNewline),
        Some(ls) => parse_lines(ls),
    }
}

/// Joining distributes over concatenation of line lists.
pub proof fn lemma_join_append(a: Seq<Seq<char>>, b: Seq<Seq<char>>)
    ensures
        join_lines(a + b) == join_lines(a) + join_lines(b),
    decreases a.len(),
{
    if a.len() == 0 {
        assert(a + b =~= b);
        assert(join_lines(a) + join_lines(b) =~= join_lines(b));
    } else {
        lemma_join_append(a.skip(1), b);
        assert((a + b)[0] == a[0]);
        assert((a + b).skip(1) =~= a.skip(1) + b);
        assert(join_lines(a + b) == (a + b)[0] + seq!['\n'] + join_lines(a.skip(1) + b));
        assert(a[0] + seq!['\n'] + (join_lines(a.skip(1)) + join_lines(b)) =~= (a[0] + seq!['\n']
            + join_lines(a.skip(1))) + join_lines(b));
    }
}

/// One entry more appends its three lines.
pub proof fn lemma_entries_lines_snoc(es: EntrySeq, e: (Seq<char>, ParamModel))
    ensures
        entries_lines(es.push(e)) == entries_lines(es) + entry_lines(e.0, e.1),
    decreases es.len(),
{
    if es.len() == 0 {
        assert(es.push(e)[0] == e);
        assert(es.push(e).skip(1) =~= Seq::<(Seq<char>, ParamModel)>::empty());
        assert(entries_lines(es.push(e)) == entry_lines(e.0, e.1) + entries_lines(
            Seq::<(Seq<char>, ParamModel)>::empty(),
        ));
        assert(entry_lines(e.0, e.1) + Seq::<Seq<char>>::empty() =~= entry_lines(e.0, e.1));
        assert(entries_lines(es) + entry_lines(e.0, e.1) =~= entry_lines(e.0, e.1));
    } else {
        assert(es.push(e)[0] == es[0]);
        assert(es.push(e).skip(1) =~= es.skip(1).push(e));
        lemma_entries_lines_snoc(es.skip(1), e);
        assert(entries_lines(es.push(e)) == entry_lines(es[0].0, es[0].1) + (entries_lines(
            es.skip(1),
        ) + entry_lines(e.0, e.1)));
        assert(entry_lines(es[0].0, es[0].1) + (entries_lines(es.skip(1)) + entry_lines(
            e.0,
            e.1,
        )) =~= (entry_lines(es[0].0, es[0].1) + entries_lines(es.skip(1))) + entry_lines(
            e.0,
            e.1,
        ));
    }
}

/// Joining a single line.
pub proof fn lemma_join_one(l: Seq<char>)
    ensures
        join_lines(seq![l]) == l + seq!['\n'],
{
    assert(seq![l].skip(1) =~= Seq::<Seq<char>>::empty());
    assert(join_lines(seq![l]) == l + seq!['\n'] + join_lines(Seq::<Seq<char>>::empty()));
    assert(l + seq!['\n'] + Seq::<char>::empty() =~= l + seq!['\n']);
}

/// Joining peels the first line off.
pub proof fn lemma_join_cons(l: Seq<char>, rest: Seq<Seq<char>>)
    ensures
        join_lines(seq![l] + rest) == l + seq!['\n'] + join_lines(rest),
{
    assert((seq![l] + rest)[0] == l);
    assert((seq![l] + rest).skip(1) =~= rest);
}

/// Writes a collection out in its deterministic textual form: the prefix
/// line (omitted when the prefix is empty), the `parameters:` header, and
/// three indented lines per entry, in the collection's order.
pub fn serialize(collection: &ParameterCollection) -> (r: String)
    ensures
        r@ == serialize_spec(collection@),
{
    let ghost m = collection@;
    let ghost header = doc_lines(m).take(doc_lines(m).len() - entries_lines(m.entries).len());
    let mut out = String::new();
    if !collection.prefix().as_str().is_empty() {
        out.append("prefix: ");
        let escaped_prefix = escape_str(collection.prefix().as_str());
        out.append(escaped_prefix.as_str());
        out.append("\n");
    }
    out.append("parameters:\n");
    proof {
        reveal_strlit("parameters:");
        reveal_strlit("parameters:\n");
        reveal_strlit("\n");
        assert("parameters:\n"@ =~= "parameters:"@ + seq!['\n']);
        assert("\n"@ =~= seq!['\n']);
        if m.prefix.len() == 0 {
            assert(header =~= seq!["parameters:"@]);
            lemma_join_one("parameters:"@);
            assert(out@ =~= join_lines(header));
        } else {
            let pl = "prefix: "@ + escape(m.prefix);
            assert(header =~= seq![pl] + seq!["parameters:"@]);
            lemma_join_cons(pl, seq!["parameters:"@]);
            lemma_join_one("parameters:"@);
            assert(out@ =~= join_lines(header));
        }
        assert(doc_lines(m) =~= header + entries_lines(m.entries));
    }
    let params = collection.parameters();
    let mut i: usize = 0;
    while i < params.len()
        invariant
            0 <= i <= params@.len(),
            crate::parameter_store::entries_view(params@) == m.entries,
            m == collection@,
            doc_lines(m) == header + entries_lines(m.entries),
            out@ == join_lines(header + entries_lines(m.entries.take(i as int))),
        decreases params.len() - i,
    {
        let e = &params[i];
        let ghost before = out@;
        let ghost entry = m.entries[i as int];
        let ghost el = entry_lines(entry.0, entry.1);

        let mut key_line = String::from_str("  ");
        let escaped_key = escape_str(e.0.as_str());
        key_line.append(escaped_key.as_str());
        key_line.append(":");
        out.append(key_line.as_str());
        out.append("\n");

        let mut value_line = String::from_str("    value: ");
        let escaped_value = escape_str(e.1.value().as_str());
        value_line.append(escaped_value.as_str());
        out.append(value_line.as_str());
        out.append("\n");

        let mut type_line = String::from_str("    type: ");
        type_line.append(e.1.parameter_type().tag());
        out.append(type_line.as_str());
        out.append("\n");

        proof {
            reveal_strlit("\n");
            assert("\n"@ =~= seq!['\n']);
            assert(entry.0 == e.0@ && entry.1 == e.1@);
            assert(key_line@ == el[0]);
            assert(value_line@ == el[1]);
            assert(type_line@ == el[2]);
            assert(el =~= seq![el[0]] + (seq![el[1]] + seq![el[2]]));
            lemma_join_cons(el[0], seq![el[1]] + seq![el[2]]);
            lemma_join_cons(el[1], seq![el[2]]);
            lemma_join_one(el[2]);
            assert(out@ =~= before + join_lines(el));
            lemma_entries_lines_snoc(m.entries.take(i as int), entry);
            assert(m.entries.take(i + 1) =~= m.entries.take(i as int).push(entry));
            lemma_join_append(header, entries_lines(m.entries.take(i as int)));
            lemma_join_append(header + entries_lines(m.entries.take(i as int)), el);
            assert((header + entries_lines(m.entries.take(i as int))) + el =~= header
                + entries_lines(m.entries.take(i + 1)));
            assert(out@ =~= join_lines(header + entries_lines(m.entries.take(i + 1))));
        }
        i = i + 1;
    }
    proof {
        assert(m.entries.take(m.entries.len() as int) =~= m.entries);
    }
    out
}

/// The views of a list of owned lines.
pub open spec fn lines_view(v: Seq<String>) -> Seq<Seq<char>> {
    v.map_values(|x: String| x@)
}

/// Cuts the text at each newline.  Text left open after the last newline
/// is rejected.
fn split_into_lines(s: &str) -> (r: Result<Vec<String>, FormatError>)
    ensures
        match r {
            Ok(v) => split_lines(s@) == Some(lines_view(v@)),
            Err(e) => split_lines(s@) is None && e@ == FormatErrorModel::MissingFinalNewline,
        },
{
    let len = s.unicode_len();
    let mut lines: Vec<String> = Vec::new();
    proof {
        assert(s@.skip(0) =~= s@);
        match split_lines(s@) {
            Some(x) => {
                assert(lines_view(lines@) =~= Seq::<Seq<char>>::empty());
                assert(Seq::<Seq<char>>::empty() + x =~= x);
            },
            None => {},
        }
    }
    let mut start: usize = 0;
    let mut pos: usize = 0;
    while pos < len
        invariant
            0 <= start <= pos <= len,
            len == s@.len(),
            forall|k: int| start <= k < pos ==> s@[k] != '\n',
            match split_lines(s@.skip(start as int)) {
                Some(x) => split_lines(s@) == Some(lines_view(lines@) + x),
                None => split_lines(s@) is None,
            },
        decreases len - pos,
    {
        if s.get_char(pos) == '\n' {
            let line = String::from_str(s.substring_char(start, pos));
            let ghost lv = lines_view(lines@);
            lines.push(line);
            proof {
                assert(line@ =~= s@.subrange(start as int, pos as int));
                assert(s@.skip(start as int) =~= line@ + seq!['\n'] + s@.skip(pos + 1));
                assert(line_ok(line@));
                lemma_split_join_step(line@, s@.skip(pos + 1));
                assert(lines_view(lines@) =~= lv.push(line@));
                match split_lines(s@.skip(pos + 1)) {
                    Some(x) => {
                        assert(split_lines(s@.skip(start as int)) == Some(seq![line@] + x));
                        assert(lv + (seq![line@] + x) =~= lv.push(line@) + x);
                    },
                    None => {},
                }
            }
            start = pos + 1;
        }
        pos = pos + 1;
    }
    if start < len {
        proof {
            let rem = s@.skip(start as int);
            assert(forall|k: int| 0 <= k < rem.len() ==> rem[k] == s@[k + start]);
            assert(forall|k: int| 0 <= k < rem.len() ==> rem[k] != '\n');
            lemma_first_newline(rem);
            if first_newline(rem) >= 0 {
                assert(rem[first_newline(rem)] == '\n');
                assert(false);
            }
            assert(rem.len() > 0);
            assert(split_lines(rem) is None);
        }
        return Err(FormatError::MissingFinalNewline);
    }
    proof {
        assert(s@.skip(start as int) =~= Seq::<char>::empty());
        assert(split_lines(Seq::<char>::empty()) == Some(Seq::<Seq<char>>::empty()));
        assert(lines_view(lines@) + Seq::<Seq<char>>::empty() =~= lines_view(lines@));
    }
    Ok(lines)
}

/// Reads a collection back from its textual form.  The text must follow
/// the serialized layout exactly: any unknown field line, missing line,
/// malformed escape or unrecognized type tag is rejected with the
/// matching failure, and a repeated key keeps its last occurrence.
pub fn deserialize(s: &str) -> (r: Result<ParameterCollection, FormatError>)
    ensures
        match r {
            Ok(c) => parse_spec(s@) == Ok::<CollectionModel, FormatErrorModel>(c@) && c.wf(),
            Err(e) => parse_spec(s@) == Err::<CollectionModel, FormatErrorModel>(e@),
        },
{
    let lines = match split_into_lines(s) {
        Err(e) => {
            return Err(e);
        },
        Ok(v) => v,
    };
    let ghost ls = lines_view(lines@);
    proof {
        assert(parse_spec(s@) == parse_lines(ls));
    }
    if lines.len() == 0 {
        return Err(FormatError::MissingParametersHeader);
    }
    let first_len = lines[0].as_str().unicode_len();
    let prefix: String;
    let li: usize;
    if str_starts_with(lines[0].as_str(), "prefix: ") {
        proof {
            reveal_strlit("prefix: ");
            assert("prefix: "@.len() == 8);
            assert(ls[0] == lines@[0]@);
            assert(ls[0].len() >= 8 && ls[0].take(8) == "prefix: "@);
        }
        let rest = lines[0].as_str().substring_char(8, first_len);
        proof {
            assert(rest@ =~= ls[0].skip(8));
        }
        let p = match unescape_str(rest) {
            None => {
                return Err(FormatError::BadEscape);
            },
            Some(p) => p,
        };
        if lines.len() < 2 {
            return Err(FormatError::MissingParametersHeader);
        }
        if !str_eq(lines[1].as_str(), "parameters:") {
            proof {
                assert(ls[1] == lines@[1]@);
            }
            return Err(FormatError::MissingParametersHeader);
        }
        proof {
            assert(ls[1] == lines@[1]@);
        }
        prefix = p;
        li = 2;
    } else if str_eq(lines[0].as_str(), "parameters:") {
        proof {
            reveal_strlit("prefix: ");
            assert("prefix: "@.len() == 8);
            assert(ls[0] == lines@[0]@);
        }
        prefix = String::new();
        li = 1;
    } else {
        proof {
            reveal_strlit("prefix: ");
            assert("prefix: "@.len() == 8);
            assert(ls[0] == lines@[0]@);
        }
        return Err(FormatError::MissingParametersHeader);
    }
    let ghost gp = prefix@;
    proof {
        assert(match parse_entry_lines(ls.skip(li as int)) {
            Ok(es) => parse_lines(ls) == Ok::<CollectionModel, FormatErrorModel>(
                CollectionModel { prefix: gp, entries: dedup_entries(es) },
            ),
            Err(e) => parse_lines(ls) == Err::<CollectionModel, FormatErrorModel>(e),
        });
    }
    let mut collection = ParameterCollection::new(prefix);
    let ghost mut plist: EntrySeq = Seq::empty();
    proof {
        match parse_entry_lines(ls.skip(li as int)) {
            Ok(rest) => {
                assert(plist + rest =~= rest);
            },
            Err(_) => {},
        }
    }
    let mut j: usize = li;
    while j < lines.len()
        invariant
            li <= j <= lines@.len(),
            ls == lines_view(lines@),
            parse_spec(s@) == parse_lines(ls),
            match parse_entry_lines(ls.skip(li as int)) {
                Ok(es) => parse_lines(ls) == Ok::<CollectionModel, FormatErrorModel>(
                    CollectionModel { prefix: gp, entries: dedup_entries(es) },
                ),
                Err(e) => parse_lines(ls) == Err::<CollectionModel, FormatErrorModel>(e),
            },
            match parse_entry_lines(ls.skip(j as int)) {
                Ok(rest) => parse_entry_lines(ls.skip(li as int)) == Ok::<
                    EntrySeq,
                    FormatErrorModel,
                >(plist + rest),
                Err(e) => parse_entry_lines(ls.skip(li as int)) == Err::<
                    EntrySeq,
                    FormatErrorModel,
                >(e),
            },
            collection@.prefix == gp,
            collection@.entries == dedup_entries(plist),
            collection.wf(),
        decreases lines@.len() - j,
    {
        let ghost lsj = ls.skip(j as int);
        proof {
            assert(lsj.len() == ls.len() - j);
        }
        if lines.len() - j < 3 {
            proof {
                assert(lsj.len() != 0 && lsj.len() < 3);
                assert(parse_entry_lines(lsj) == Err::<EntrySeq, FormatErrorModel>(
                    FormatErrorModel::IncompleteEntry,
                ));
            }
            return Err(FormatError::IncompleteEntry);
        }
        proof {
            assert(lsj[0] == ls[j as int] && ls[j as int] == lines@[j as int]@);
            assert(lsj[1] == ls[j + 1] && ls[j + 1] == lines@[j + 1]@);
            assert(lsj[2] == ls[j + 2] && ls[j + 2] == lines@[j + 2]@);
        }
        // The key line: two spaces, the escaped key, a colon.
        let kl_len = lines[j].as_str().unicode_len();
        let key_line_ok = kl_len >= 3 && str_starts_with(lines[j].as_str(), "  ") && lines[j]
            .as_str()
            .get_char(kl_len - 1) == ':';
        proof {
            reveal_strlit("  ");
            assert("  "@.len() == 2);
            assert(key_line_ok == (lsj[0].len() >= 3 && lsj[0].take(2) == "  "@ && lsj[0][lsj[0].len()
                - 1] == ':'));
        }
        if !key_line_ok {
            proof {
                assert(parse_entry_lines(lsj) == Err::<EntrySeq, FormatErrorModel>(
                    FormatErrorModel::BadKeyLine,
                ));
            }
            return Err(FormatError::BadKeyLine);
        }
        let key_esc = lines[j].as_str().substring_char(2, kl_len - 1);
        proof {
            assert(key_esc@ =~= lsj[0].subrange(2, lsj[0].len() - 1));
        }
        let key = match unescape_str(key_esc) {
            None => {
                proof {
                    assert(parse_entry_lines(lsj) == Err::<EntrySeq, FormatErrorModel>(
                        FormatErrorModel::BadEscape,
                    ));
                }
                return Err(FormatError::BadEscape);
            },
            Some(k) => k,
        };
        // The value line: its label, then the escaped value.
        let vl_len = lines[j + 1].as_str().unicode_len();
        let value_line_ok = str_starts_with(lines[j + 1].as_str(), "    value: ");
        proof {
            reveal_strlit("    value: ");
            assert("    value: "@.len() == 11);
            assert(value_line_ok == (lsj[1].len() >= 11 && lsj[1].take(11) == "    value: "@));
        }
        if !value_line_ok {
            proof {
                assert(parse_entry_lines(lsj) == Err::<EntrySeq, FormatErrorModel>(
                    FormatErrorModel::BadValueLine,
                ));
            }
            return Err(FormatError::BadValueLine);
        }
        let value_esc = lines[j + 1].as_str().substring_char(11, vl_len);
        proof {
            assert(value_esc@ =~= lsj[1].skip(11));
        }
        let value = match unescape_str(value_esc) {
            None => {
                proof {
                    assert(parse_entry_lines(lsj) == Err::<EntrySeq, FormatErrorModel>(
                        FormatErrorModel::BadEscape,
                    ));
                }
                return Err(FormatError::BadEscape);
            },
            Some(v) => v,
        };
        // The type line: its label, then the tag.
        let tl_len = lines[j + 2].as_str().unicode_len();
        let type_line_ok = str_starts_with(lines[j + 2].as_str(), "    type: ");
        proof {
            reveal_strlit("    type: ");
            assert("    type: "@.len() == 10);
            assert(type_line_ok == (lsj[2].len() >= 10 && lsj[2].take(10) == "    type: "@));
        }
        if !type_line_ok {
            proof {
                assert(parse_entry_lines(lsj) == Err::<EntrySeq, FormatErrorModel>(
                    FormatErrorModel::BadTypeLine,
                ));
            }
            return Err(FormatError::BadTypeLine);
        }
        let tag = lines[j + 2].as_str().substring_char(10, tl_len);
        proof {
            assert(tag@ =~= lsj[2].skip(10));
        }
        let ty = match ParameterType::from_str(tag) {
            Err(_) => {
                proof {
                    assert(parse_entry_lines(lsj) == Err::<EntrySeq, FormatErrorModel>(
                        FormatErrorModel::InvalidParameterType(lsj[2].skip(10)),
                    ));
                }
                return Err(
                    FormatError::InvalidParameterType(crate::parameter_store::clone_str(tag)),
                );
            },
            Ok(t) => t,
        };
        let ghost entry = (key@, ParamModel { value: value@, ty: ty });
        let ghost before_plist = plist;
        proof {
            crate::parameter_store::lemma_type_of_tag(ty, tag@);
            assert(lsj.skip(3) =~= ls.skip(j + 3));
            assert(parse_entry_lines(lsj) == match parse_entry_lines(ls.skip(j + 3)) {
                Err(e) => Err::<EntrySeq, FormatErrorModel>(e),
                Ok(rest) => Ok::<EntrySeq, FormatErrorModel>(seq![entry] + rest),
            });
        }
        let param = Parameter::with_type(value, ty);
        collection.insert(key, param);
        proof {
            plist = plist.push(entry);
            assert(plist.drop_last() =~= before_plist);
            assert(plist.last() == entry);
            assert(dedup_entries(plist) == insert_entry(
                dedup_entries(before_plist),
                entry.0,
                entry.1,
            ));
            match parse_entry_lines(ls.skip(j + 3)) {
                Ok(rest) => {
                    assert(before_plist + (seq![entry] + rest) =~= plist + rest);
                },
                Err(_) => {},
            }
        }
        j = j + 3;
    }
    proof {
        assert(ls.skip(lines@.len() as int) =~= Seq::<Seq<char>>::empty());
        assert(parse_entry_lines(Seq::<Seq<char>>::empty()) == Ok::<EntrySeq, FormatErrorModel>(
            Seq::empty(),
        ));
        assert(plist + Seq::<(Seq<char>, ParamModel)>::empty() =~= plist);
        assert(collection@ =~= CollectionModel { prefix: gp, entries: dedup_entries(plist) });
    }
    Ok(collection)
}

/// The serialized lines of an entry list are newline-free.
proof fn lemma_entries_lines_ok(entries: EntrySeq)
    ensures
        lines_ok(entries_lines(entries)),
    decreases entries.len(),
{
    if entries.len() == 0 {
    } else {
        lemma_entries_lines_ok(entries.skip(1));
        let e = entries[0];
        let el = entry_lines(e.0, e.1);
        lemma_escape_no_newline(e.0);
        lemma_escape_no_newline(e.1.value);
        reveal_strlit("  ");
        reveal_strlit(":");
        reveal_strlit("    value: ");
        reveal_strlit("    type: ");
        reveal_strlit("String");
        reveal_strlit("SecureString");
        reveal_strlit("StringList");
        assert(line_ok(el[0]));
        assert(line_ok(el[1]));
        assert(line_ok(el[2]));
        let ls = entries_lines(entries);
        assert forall|i: int| 0 <= i < ls.len() implies line_ok(#[trigger] ls[i]) by {
            if i < 3 {
                assert(ls[i] == el[i]);
            } else {
                assert(ls[i] == entries_lines(entries.skip(1))[i - 3]);
            }
        }
    }
}

/// The serialized lines of a whole collection are newline-free.
proof fn lemma_doc_lines_ok(m: CollectionModel)
    ensures
        lines_ok(doc_lines(m)),
{
    lemma_entries_lines_ok(m.entries);
    lemma_escape_no_newline(m.prefix);
    reveal_strlit("prefix: ");
    reveal_strlit("parameters:");
    let ls = doc_lines(m);
    let el = entries_lines(m.entries);
    if m.prefix.len() == 0 {
        assert(line_ok("parameters:"@));
        assert forall|i: int| 0 <= i < ls.len() implies line_ok(#[trigger] ls[i]) by {
            if i >= 1 {
                assert(ls[i] == el[i - 1]);
            }
        }
    } else {
        assert(line_ok("prefix: "@ + escape(m.prefix)));
        assert(line_ok("parameters:"@));
        assert forall|i: int| 0 <= i < ls.len() implies line_ok(#[trigger] ls[i]) by {
            if i >= 2 {
                assert(ls[i] == el[i - 2]);
            }
        }
    }
}

/// Parsing the serialized entry lines yields the entries back, in order.
proof fn lemma_parse_entries_roundtrip(entries: EntrySeq)
    ensures
        parse_entry_lines(entries_lines(entries)) == Ok::<EntrySeq, FormatErrorModel>(entries),
    decreases entries.len(),
{
    if entries.len() == 0 {
        assert(entries_lines(entries).len() == 0);
        assert(entries =~= Seq::<(Seq<char>, ParamModel)>::empty());
    } else {
        lemma_parse_entries_roundtrip(entries.skip(1));
        let e = entries[0];
        let el = entry_lines(e.0, e.1);
        let rest = entries_lines(entries.skip(1));
        let ls = entries_lines(entries);
        assert(ls == el + rest);
        assert(ls.len() == 3 + rest.len());
        assert(ls[0] == el[0] && ls[1] == el[1] && ls[2] == el[2]);
        reveal_strlit("  ");
        reveal_strlit(":");
        reveal_strlit("    value: ");
        reveal_strlit("    type: ");
        assert("  "@.len() == 2 && ":"@.len() == 1);
        assert("    value: "@.len() == 11);
        assert("    type: "@.len() == 10);
        let kl = ls[0];
        assert(kl.len() == 3 + escape(e.0).len());
        assert(kl.take(2) =~= "  "@);
        assert(kl[kl.len() - 1] == ":"@[0]);
        assert(kl[kl.len() - 1] == ':');
        assert(kl.subrange(2, kl.len() - 1) =~= escape(e.0));
        lemma_unescape_escape(e.0);
        let vl = ls[1];
        assert(vl.len() == 11 + escape(e.1.value).len());
        assert(vl.take(11) =~= "    value: "@);
        assert(vl.skip(11) =~= escape(e.1.value));
        lemma_unescape_escape(e.1.value);
        let tl = ls[2];
        assert(tl.len() == 10 + e.1.ty.tag_spec().len());
        assert(tl.take(10) =~= "    type: "@);
        assert(tl.skip(10) =~= e.1.ty.tag_spec());
        assert(is_valid_tag(e.1.ty.tag_spec()));
        crate::parameter_store::lemma_type_of_tag(e.1.ty, e.1.ty.tag_spec());
        assert(ls.skip(3) =~= rest);
        assert(parse_entry_lines(ls) == Ok::<EntrySeq, FormatErrorModel>(
            seq![(e.0, ParamModel { value: e.1.value, ty: e.1.ty })] + entries.skip(1),
        ));
        assert((e.0, ParamModel { value: e.1.value, ty: e.1.ty }) == e);
        assert(seq![e] + entries.skip(1) =~= entries);
    }
}

/// Map semantics change nothing on an entry list whose keys are already
/// unique.
proof fn lemma_dedup_unique(es: EntrySeq)
    requires
        unique_keys(es),
    ensures
        dedup_entries(es) == es,
    decreases es.len(),
{
    if es.len() == 0 {
        assert(es =~= Seq::<(Seq<char>, ParamModel)>::empty());
    } else {
        let head = es.drop_last();
        assert(forall|i: int| 0 <= i < head.len() ==> head[i] == es[i]);
        lemma_dedup_unique(head);
        crate::parameter_store::lemma_index_of_key(head, es.last().0);
        if crate::parameter_store::has_key(head, es.last().0) {
            let i = choose|i: int| 0 <= i < head.len() && head[i].0 == es.last().0;
            assert(es[i].0 == es[es.len() - 1].0);
            assert(false);
        }
        assert(dedup_entries(es) == head.push(es.last()));
        assert(head.push(es.last()) =~= es);
    }
}

/// Export round trip: parsing the serialized form of a well-formed
/// collection yields a collection with identical prefix and entries.
pub proof fn lemma_parse_serialize_roundtrip(m: CollectionModel)
    requires
        unique_keys(m.entries),
    ensures
        parse_spec(serialize_spec(m)) == Ok::<CollectionModel, FormatErrorModel>(m),
{
    lemma_doc_lines_ok(m);
    lemma_split_join(doc_lines(m));
    let ls = doc_lines(m);
    lemma_parse_entries_roundtrip(m.entries);
    lemma_dedup_unique(m.entries);
    reveal_strlit("prefix: ");
    reveal_strlit("parameters:");
    assert("prefix: "@.len() == 8);
    assert("parameters:"@.len() == 11);
    if m.prefix.len() == 0 {
        assert(ls[0] == "parameters:"@);
        if ls[0].len() >= 8 && ls[0].take(8) == "prefix: "@ {
            assert(ls[0].take(8)[1] == 'a');
            assert("prefix: "@[1] == 'r');
            assert(false);
        }
        assert(ls.skip(1) =~= entries_lines(m.entries));
        assert(parse_lines(ls) == Ok::<CollectionModel, FormatErrorModel>(
            CollectionModel { prefix: Seq::empty(), entries: dedup_entries(m.entries) },
        ));
        assert(CollectionModel { prefix: Seq::<char>::empty(), entries: m.entries } =~= m);
    } else {
        assert(ls[0] == "prefix: "@ + escape(m.prefix));
        assert(ls[0].len() >= 8);
        assert(ls[0].take(8) =~= "prefix: "@);
        assert(ls[0].skip(8) =~= escape(m.prefix));
        lemma_unescape_escape(m.prefix);
        assert(ls[1] == "parameters:"@);
        assert(ls.skip(2) =~= entries_lines(m.entries));
        assert(parse_lines(ls) == Ok::<CollectionModel, FormatErrorModel>(
            CollectionModel { prefix: m.prefix, entries: dedup_entries(m.entries) },
        ));
        assert(CollectionModel { prefix: m.prefix, entries: m.entries } =~= m);
    }
}

} // verus!
