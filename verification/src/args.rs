//! The listeners of the command line: what each `--bind` argument asks for.

use crate::text::{chars_of, same_text};
use core::str::FromStr;
use vstd::prelude::*;
use vstd::string::{StrSliceExecFns, StringExecFns};

verus! {

/// The protocols that a listener can sniff.
#[derive(Debug, Clone, Copy, PartialEq, Eq, Hash, Structural)]
pub enum ListenerKind {
    HTTP,
    TLS,
    MC,
}

/// A listener: the protocol to sniff, the address to bind and the chain
/// that its connections start with.
#[derive(Debug, Clone, PartialEq, Eq)]
pub struct Listener {
    pub kind: ListenerKind,
    /// The socket address to bind, as text.
    pub addr: String,
    pub chain: String,
}

/// A listener as plain values.
pub struct ListenerView {
    pub kind: ListenerKind,
    pub addr: Seq<char>,
    pub chain: Seq<char>,
}

impl View for Listener {
    type V = ListenerView;

    open spec fn view(&self) -> ListenerView {
        ListenerView { kind: self.kind, addr: self.addr@, chain: self.chain@ }
    }
}

/// Why a `--bind` argument names no listener.
#[derive(Debug, Clone, PartialEq, Eq)]
pub enum ListenerError {
    /// A parameter has no `=`.
    NoValue { param: String },
    /// The value of `kind` is none of `http`, `tls` and `mc`.
    UnknownKind { key: String, value: String },
    /// A parameter is none of `kind`, `addr` and `chain`.
    UnknownKey { key: String },
    /// No parameter names the chain.
    MissingChain,
}

/// A listener error as plain values.
pub enum ListenerErrorView {
    NoValue { param: Seq<char> },
    UnknownKind { key: Seq<char>, value: Seq<char> },
    UnknownKey { key: Seq<char> },
    MissingChain,
}

impl View for ListenerError {
    type V = ListenerErrorView;

    open spec fn view(&self) -> ListenerErrorView {
        match *self {
            ListenerError::NoValue { param } => ListenerErrorView::NoValue { param: param@ },
            ListenerError::UnknownKind { key, value } => ListenerErrorView::UnknownKind {
                key: key@,
                value: value@,
            },
            ListenerError::UnknownKey { key } => ListenerErrorView::UnknownKey { key: key@ },
            ListenerError::MissingChain => ListenerErrorView::MissingChain,
        }
    }
}

/// Whether `c` is white space, as `char::is_whitespace` tells it.
pub uninterp spec fn white_space(c: char) -> bool;

/// `char::is_whitespace`: whether the character has the Unicode property
/// White_Space.
#[verifier::external_body]
fn is_white_space(c: char) -> (white: bool)
    ensures
        white == white_space(c),
{
    c.is_whitespace()
}

/// `text` in lower case, as `str::to_lowercase` gives it.
pub uninterp spec fn lowercase(text: Seq<char>) -> Seq<char>;

/// `str::to_lowercase`: the text in lower case, by the rules of Unicode.
#[verifier::external_body]
fn to_lowercase(text: &str) -> (lower: String)
    ensures
        lower@ == lowercase(text@),
{
    text.to_lowercase()
}

/// `text` without the white space that it starts with.
pub open spec fn trim_front(text: Seq<char>) -> Seq<char>
    decreases text.len(),
{
    if text.len() > 0 && white_space(text[0]) {
        trim_front(text.skip(1))
    } else {
        text
    }
}

/// `text` without the white space that it ends with.
pub open spec fn trim_back(text: Seq<char>) -> Seq<char>
    decreases text.len(),
{
    if text.len() > 0 && white_space(text.last()) {
        trim_back(text.drop_last())
    } else {
        text
    }
}

/// `text` without the white space around it.
pub open spec fn trimmed(text: Seq<char>) -> Seq<char> {
    trim_back(trim_front(text))
}

/// The first place where `c` stands in `text`, or its length.
pub open spec fn find_char(text: Seq<char>, c: char) -> int
    decreases text.len(),
{
    if text.len() == 0 || text[0] == c {
        0
    } else {
        1 + find_char(text.skip(1), c)
    }
}

/// The kind that `lower`, a text in lower case, names.
pub open spec fn kind_named(lower: Seq<char>) -> Option<ListenerKind> {
    if lower == "http"@ {
        Some(ListenerKind::HTTP)
    } else if lower == "tls"@ {
        Some(ListenerKind::TLS)
    } else if lower == "mc"@ {
        Some(ListenerKind::MC)
    } else {
        None
    }
}

/// What the parameters read so far ask for.
pub struct Draft {
    pub kind: ListenerKind,
    pub addr: Seq<char>,
    pub chain: Option<Seq<char>>,
}

/// What is assumed of a listener before any parameter is read: HTTP on
/// port 8080 of every address, and no chain.
pub open spec fn blank_draft() -> Draft {
    Draft { kind: ListenerKind::HTTP, addr: "0.0.0.0:8080"@, chain: None }
}

/// The draft after the parameter `param`, which is neither empty nor has
/// white space around it: a key, `=` and a value. A later parameter
/// overrides an earlier one of the same key.
pub open spec fn apply_param(draft: Draft, param: Seq<char>) -> Result<Draft, ListenerErrorView> {
    let eq = find_char(param, '=');
    let key = trimmed(param.take(eq));
    let value = trimmed(param.skip(eq + 1));
    if eq >= param.len() {
        Err(ListenerErrorView::NoValue { param })
    } else if key == "kind"@ || key == "k"@ {
        match kind_named(lowercase(value)) {
            Some(kind) => Ok(Draft { kind, ..draft }),
            None => Err(ListenerErrorView::UnknownKind { key, value }),
        }
    } else if key == "addr"@ || key == "a"@ {
        Ok(Draft { addr: value, ..draft })
    } else if key == "chain"@ || key == "c"@ {
        Ok(Draft { chain: Some(value), ..draft })
    } else {
        Err(ListenerErrorView::UnknownKey { key })
    }
}

/// The draft after the parameters of `text`, which commas part. A
/// parameter that is empty but for white space is passed over; the first
/// that is wrong decides.
pub open spec fn apply_params(draft: Draft, text: Seq<char>) -> Result<Draft, ListenerErrorView>
    decreases text.len(),
{
    let comma = find_char(text, ',');
    let param = trimmed(text.take(comma));
    let next = if param.len() == 0 {
        Ok(draft)
    } else {
        apply_param(draft, param)
    };
    match next {
        Err(error) => Err(error),
        Ok(after) => if comma < 0 || comma >= text.len() {
            Ok(after)
        } else {
            apply_params(after, text.skip(comma + 1))
        },
    }
}

/// The listener that the `--bind` argument `text` names.
pub open spec fn parse_listener(text: Seq<char>) -> Result<ListenerView, ListenerErrorView> {
    match apply_params(blank_draft(), text) {
        Err(error) => Err(error),
        Ok(draft) => match draft.chain {
            Some(chain) => Ok(ListenerView { kind: draft.kind, addr: draft.addr, chain }),
            None => Err(ListenerErrorView::MissingChain),
        },
    }
}

proof fn lemma_find_char(text: Seq<char>, c: char, k: int)
    requires
        0 <= k <= text.len(),
        forall|j: int| 0 <= j < k ==> text[j] != c,
        k == text.len() || text[k] == c,
    ensures
        find_char(text, c) == k,
    decreases k,
{
    if k > 0 {
        assert forall|j: int| 0 <= j < k - 1 implies text.skip(1)[j] != c by {
            assert(text.skip(1)[j] == text[j + 1]);
        }
        lemma_find_char(text.skip(1), c, k - 1);
    }
}

proof fn lemma_trim_front(text: Seq<char>, k: int)
    requires
        0 <= k <= text.len(),
        forall|j: int| 0 <= j < k ==> white_space(text[j]),
        k == text.len() || !white_space(text[k]),
    ensures
        trim_front(text) == text.skip(k),
    decreases k,
{
    if k > 0 {
        assert forall|j: int| 0 <= j < k - 1 implies white_space(text.skip(1)[j]) by {
            assert(text.skip(1)[j] == text[j + 1]);
        }
        lemma_trim_front(text.skip(1), k - 1);
        assert(text.skip(1).skip(k - 1) =~= text.skip(k));
    } else {
        assert(text.skip(0) =~= text);
    }
}

proof fn lemma_trim_back(text: Seq<char>, k: int)
    requires
        0 <= k <= text.len(),
        forall|j: int| k <= j < text.len() ==> white_space(text[j]),
        k == 0 || !white_space(text[k - 1]),
    ensures
        trim_back(text) == text.take(k),
    decreases text.len() - k,
{
    if k < text.len() {
        assert forall|j: int| k <= j < text.drop_last().len() implies white_space(
            text.drop_last()[j],
        ) by {
            assert(text.drop_last()[j] == text[j]);
        }
        lemma_trim_back(text.drop_last(), k);
        assert(text.drop_last().take(k) =~= text.take(k));
    } else {
        assert(text.take(k) =~= text);
    }
}

/// Finds the first `c` among the characters between `from` and `to`.
fn find_between(chars: &Vec<char>, from: usize, to: usize, c: char) -> (at: usize)
    requires
        from <= to <= chars@.len(),
    ensures
        at == from + find_char(chars@.subrange(from as int, to as int), c),
        from <= at <= to,
        at < to ==> chars@[at as int] == c,
{
    let ghost text = chars@.subrange(from as int, to as int);
    let mut i: usize = from;
    while i < to
        invariant
            from <= i <= to,
            to <= chars@.len(),
            text == chars@.subrange(from as int, to as int),
            forall|j: int| 0 <= j < i - from ==> text[j] != c,
        decreases to - i,
    {
        if chars[i] == c {
            proof {
                lemma_find_char(text, c, i - from);
            }
            return i;
        }
        i += 1;
    }
    proof {
        lemma_find_char(text, c, to - from);
    }
    to
}

/// Finds where the characters between `from` and `to` start and end once
/// the white space around them is left out.
fn trim_between(chars: &Vec<char>, from: usize, to: usize) -> (ends: (usize, usize))
    requires
        from <= to <= chars@.len(),
    ensures
        from <= ends.0 <= ends.1 <= to,
        chars@.subrange(ends.0 as int, ends.1 as int) == trimmed(
            chars@.subrange(from as int, to as int),
        ),
{
    let ghost text = chars@.subrange(from as int, to as int);
    let mut a: usize = from;
    while a < to && is_white_space(chars[a])
        invariant
            from <= a <= to,
            to <= chars@.len(),
            text == chars@.subrange(from as int, to as int),
            forall|j: int| 0 <= j < a - from ==> white_space(text[j]),
        decreases to - a,
    {
        a += 1;
    }
    proof {
        lemma_trim_front(text, a - from);
    }
    let ghost started = text.skip(a - from);
    assert(started =~= chars@.subrange(a as int, to as int));
    let mut b: usize = to;
    while b > a && is_white_space(chars[b - 1])
        invariant
            a <= b <= to,
            to <= chars@.len(),
            started == chars@.subrange(a as int, to as int),
            forall|j: int| b - a <= j < to - a ==> white_space(started[j]),
        decreases b,
    {
        b -= 1;
    }
    proof {
        lemma_trim_back(started, b - a);
        assert(started.take(b - a) =~= chars@.subrange(a as int, b as int));
    }
    (a, b)
}

impl ListenerKind {
    /// The kind that `lower`, a text in lower case, names.
    pub fn from_lowercase(lower: &str) -> (kind: Option<ListenerKind>)
        ensures
            kind == kind_named(lower@),
    {
        if same_text(lower, "http") {
            Some(ListenerKind::HTTP)
        } else if same_text(lower, "tls") {
            Some(ListenerKind::TLS)
        } else if same_text(lower, "mc") {
            Some(ListenerKind::MC)
        } else {
            None
        }
    }

    /// The kind that `text` names, in whatever case.
    pub fn parse(text: &str) -> (kind: Option<ListenerKind>)
        ensures
            kind == kind_named(lowercase(text@)),
    {
        let lower = to_lowercase(text);
        ListenerKind::from_lowercase(lower.as_str())
    }
}

/// What the parameters read so far ask for.
struct Partial {
    kind: ListenerKind,
    addr: String,
    chain: Option<String>,
}

impl View for Partial {
    type V = Draft;

    closed spec fn view(&self) -> Draft {
        Draft {
            kind: self.kind,
            addr: self.addr@,
            chain: match self.chain {
                Some(chain) => Some(chain@),
                None => None,
            },
        }
    }
}

/// Reads the parameter that `text` holds between `from` and `to`, which is
/// neither empty nor has white space around it.
fn read_param(partial: Partial, text: &str, chars: &Vec<char>, from: usize, to: usize) -> (r: Result<
    Partial,
    ListenerError,
>)
    requires
        chars@ == text@,
        from <= to <= chars@.len(),
    ensures
        match apply_param(partial@, text@.subrange(from as int, to as int)) {
            Ok(draft) => r matches Ok(after) && after@ == draft,
            Err(error) => r matches Err(e) && e@ == error,
        },
{
    let ghost param = text@.subrange(from as int, to as int);
    let eq = find_between(chars, from, to, '=');
    if eq >= to {
        return Err(ListenerError::NoValue { param: text.substring_char(from, to).to_owned() });
    }
    assert(param.take(eq - from) =~= chars@.subrange(from as int, eq as int));
    assert(param.skip(eq - from + 1) =~= chars@.subrange(eq + 1, to as int));
    let (key_from, key_to) = trim_between(chars, from, eq);
    let (value_from, value_to) = trim_between(chars, eq + 1, to);
    let key = text.substring_char(key_from, key_to);
    let value = text.substring_char(value_from, value_to);
    let mut partial = partial;
    if same_text(key, "kind") || same_text(key, "k") {
        match ListenerKind::parse(value) {
            Some(kind) => {
                partial.kind = kind;
                Ok(partial)
            },
            None => Err(ListenerError::UnknownKind { key: key.to_owned(), value: value.to_owned() }),
        }
    } else if same_text(key, "addr") || same_text(key, "a") {
        partial.addr = value.to_owned();
        Ok(partial)
    } else if same_text(key, "chain") || same_text(key, "c") {
        partial.chain = Some(value.to_owned());
        Ok(partial)
    } else {
        Err(ListenerError::UnknownKey { key: key.to_owned() })
    }
}

impl Listener {
    /// Reads a `--bind` argument: parameters `key=value` that commas part,
    /// with `kind` or `k`, `addr` or `a`, and `chain` or `c` for keys. The
    /// address is taken as it stands; whether it is a socket address is for
    /// whoever binds it to say.
    pub fn parse(text: &str) -> (r: Result<Listener, ListenerError>)
        ensures
            match parse_listener(text@) {
                Ok(listener) => r matches Ok(found) && found@ == listener,
                Err(error) => r matches Err(e) && e@ == error,
            },
    {
        let chars = chars_of(text);
        let n = chars.len();
        let mut partial = Partial {
            kind: ListenerKind::HTTP,
            addr: "0.0.0.0:8080".to_owned(),
            chain: None,
        };
        let mut from: usize = 0;
        assert(text@.skip(0) =~= text@);
        loop
            invariant
                chars@ == text@,
                n == chars@.len(),
                from <= n,
                apply_params(partial@, text@.skip(from as int)) == apply_params(
                    blank_draft(),
                    text@,
                ),
            ensures
                apply_params(blank_draft(), text@) == Ok::<Draft, ListenerErrorView>(partial@),
            decreases n - from,
        {
            let ghost rest = text@.skip(from as int);
            assert(rest =~= chars@.subrange(from as int, n as int));
            let comma = find_between(&chars, from, n, ',');
            assert(rest.take(comma - from) =~= chars@.subrange(from as int, comma as int));
            let (a, b) = trim_between(&chars, from, comma);
            if a < b {
                match read_param(partial, text, &chars, a, b) {
                    Ok(after) => {
                        partial = after;
                    },
                    Err(error) => {
                        return Err(error);
                    },
                }
            }
            if comma >= n {
                break ;
            }
            assert(rest.skip(comma - from + 1) =~= text@.skip(comma + 1));
            from = comma + 1;
        }
        match partial.chain {
            Some(chain) => Ok(Listener { kind: partial.kind, addr: partial.addr, chain }),
            None => Err(ListenerError::MissingChain),
        }
    }
}

/// A text that names no kind of listener.
#[derive(Debug, Clone, PartialEq, Eq)]
pub struct UnknownKind {
    pub value: String,
}

impl UnknownKind {
    /// The error in words.
    pub open spec fn text(self) -> Seq<char> {
        "unknown listener kind \""@ + self.value@ + "\""@
    }

    /// The error in words.
    pub fn message(&self) -> (text: String)
        ensures
            text@ == self.text(),
    {
        let mut text = "unknown listener kind \"".to_owned();
        text.append(self.value.as_str());
        text.append("\"");
        text
    }
}

impl ListenerError {
    /// The error in words.
    pub open spec fn text(self) -> Seq<char> {
        match self {
            ListenerError::NoValue { param } => "parameter \""@ + param@ + "\" has no value"@,
            ListenerError::UnknownKind { key, value } => "in parameter \""@ + key@
                + "\": unknown listener kind \""@ + value@ + "\""@,
            ListenerError::UnknownKey { key } => "unknown parameter \""@ + key@ + "\""@,
            ListenerError::MissingChain => "\"chain\" parameter is required"@,
        }
    }

    /// The error in words.
    pub fn message(&self) -> (text: String)
        ensures
            text@ == self.text(),
    {
        match self {
            ListenerError::NoValue { param } => {
                let mut text = "parameter \"".to_owned();
                text.append(param.as_str());
                text.append("\" has no value");
                text
            },
            ListenerError::UnknownKind { key, value } => {
                let mut text = "in parameter \"".to_owned();
                text.append(key.as_str());
                text.append("\": unknown listener kind \"");
                text.append(value.as_str());
                text.append("\"");
                text
            },
            ListenerError::UnknownKey { key } => {
                let mut text = "unknown parameter \"".to_owned();
                text.append(key.as_str());
                text.append("\"");
                text
            },
            ListenerError::MissingChain => "\"chain\" parameter is required".to_owned(),
        }
    }
}

impl FromStr for ListenerKind {
    type Err = UnknownKind;

    fn from_str(s: &str) -> (r: Result<Self, UnknownKind>)
        ensures
            match kind_named(lowercase(s@)) {
                Some(kind) => r == Ok::<ListenerKind, UnknownKind>(kind),
                None => r matches Err(error) && error.value@ == s@,
            },
    {
        match ListenerKind::parse(s) {
            Some(kind) => Ok(kind),
            None => Err(UnknownKind { value: s.to_owned() }),
        }
    }
}

impl FromStr for Listener {
    type Err = ListenerError;

    fn from_str(s: &str) -> (r: Result<Self, ListenerError>)
        ensures
            match parse_listener(s@) {
                Ok(listener) => r matches Ok(found) && found@ == listener,
                Err(error) => r matches Err(e) && e@ == error,
            },
    {
        Listener::parse(s)
    }
}

} // verus!
