//! Handles, arities and the checks that every callable shares.

use crate::errors::Error;
use crate::text::{decimal, push_char, push_decimal};
use vstd::prelude::*;
use vstd::std_specs::cmp::PartialEqSpecImpl;
use vstd::string::*;

verus! {

/// Holds of every value. An existential names its witnesses to the solver
/// by this term, so that a proof gives them by stating it.
pub open spec fn witness<T>(x: T) -> bool {
    true
}

/// The special forms: callables that do not evaluate all of their arguments.
#[derive(Debug, Clone, Copy, PartialEq, Eq, Structural)]
pub enum Form {
    For,
    Let,
    Debug,
}

/// How many arguments a callable takes.
#[derive(Debug, Clone, Copy, PartialEq, Eq, Structural)]
pub enum Arity {
    AtLeast(usize),
    Monadic,
    Dyadic,
    Exactly(usize),
    Between(usize, usize),
}

/// `"<x> argument"`, in the plural when `x` is more than one.
pub open spec fn arg_count(x: nat) -> Seq<char> {
    decimal(x) + " argument"@ + if x > 1 {
        "s"@
    } else {
        Seq::<char>::empty()
    }
}

fn push_arg_count(s: &mut String, x: usize)
    ensures
        final(s)@ == old(s)@ + arg_count(x as nat),
{
    push_decimal(s, x);
    s.append(" argument");
    if x > 1 {
        s.append("s");
    }
    assert(final(s)@ =~= old(s)@ + arg_count(x as nat));
}

impl Arity {
    /// Whether a call with `l` arguments respects this arity.
    pub open spec fn admits(self, l: nat) -> bool {
        match self {
            Arity::AtLeast(x) => l >= x,
            Arity::Monadic => l == 1,
            Arity::Dyadic => l == 2,
            Arity::Exactly(x) => l == x,
            Arity::Between(x, y) => x <= l <= y,
        }
    }

    /// The text of the complaint about a call with `l` arguments.
    pub open spec fn message(self, l: nat) -> Seq<char> {
        match self {
            Arity::AtLeast(x) => "expected at least "@ + arg_count(x as nat) + ", but received "@
                + decimal(l),
            Arity::Monadic => "expected "@ + arg_count(1) + ", but received "@ + decimal(l),
            Arity::Dyadic => "expected "@ + arg_count(2) + ", but received "@ + decimal(l),
            Arity::Exactly(x) => "expected "@ + arg_count(x as nat) + ", but received "@ + decimal(
                l,
            ),
            Arity::Between(x, y) => "expected between "@ + arg_count(x as nat) + " and "@
                + arg_count(y as nat) + ", but received "@ + decimal(l),
        }
    }

    /// Describes how a call with `l` arguments departs from this arity.
    pub fn make_error(&self, l: usize) -> (s: String)
        ensures
            s@ == self.message(l as nat),
    {
        let mut s = String::new();
        match self {
            Arity::AtLeast(x) => {
                s.append("expected at least ");
                push_arg_count(&mut s, *x);
            },
            Arity::Monadic => {
                s.append("expected ");
                push_arg_count(&mut s, 1);
            },
            Arity::Dyadic => {
                s.append("expected ");
                push_arg_count(&mut s, 2);
            },
            Arity::Exactly(x) => {
                s.append("expected ");
                push_arg_count(&mut s, *x);
            },
            Arity::Between(x, y) => {
                s.append("expected between ");
                push_arg_count(&mut s, *x);
                s.append(" and ");
                push_arg_count(&mut s, *y);
            },
        }
        s.append(", but received ");
        push_decimal(&mut s, l);
        assert(s@ =~= self.message(l as nat));
        s
    }

    /// Accepts a call with `l` arguments exactly when the arity admits it.
    pub fn validate(&self, l: usize) -> (r: Result<(), Error>)
        ensures
            self.admits(l as nat) ==> r is Ok,
            !self.admits(l as nat) ==> r == Err::<(), Error>(Error::ArityMismatch),
    {
        let ok = match self {
            Arity::AtLeast(x) => l >= *x,
            Arity::Monadic => l == 1,
            Arity::Dyadic => l == 2,
            Arity::Exactly(x) => l == *x,
            Arity::Between(x, y) => l >= *x && l <= *y,
        };
        if ok {
            Ok(())
        } else {
            Err(Error::ArityMismatch)
        }
    }
}

/// A callable that can check the arguments it is applied to.
pub trait FuncVerifier<T> {
    /// The arity of the callable.
    spec fn arity_spec(&self) -> Arity;

    /// Whether arguments of the right number are also of the right kind.
    spec fn accepts(&self, args: Seq<T>) -> bool;

    /// The arity of the callable.
    fn arity(&self) -> (a: Arity)
        ensures
            a == self.arity_spec(),
    ;

    /// Succeeds exactly when the number of arguments respects the arity.
    fn validate_arity(&self, args: &[T]) -> (r: Result<(), Error>)
        ensures
            self.arity_spec().admits(args@.len()) ==> r is Ok,
            !self.arity_spec().admits(args@.len()) ==> r == Err::<(), Error>(
                Error::ArityMismatch,
            ),
    {
        self.arity().validate(args.len())
    }

    /// Succeeds exactly when the arguments, which are of the right number,
    /// are of the right kind.
    fn validate_types(&self, args: &[T]) -> (r: Result<(), Error>)
        requires
            self.arity_spec().admits(args@.len()),
        ensures
            self.accepts(args@) ==> r is Ok,
            !self.accepts(args@) ==> r == Err::<(), Error>(Error::TypeMismatch),
    ;

    /// Hands the arguments back when they are of the right number and kind.
    fn validate_args(&self, args: Vec<T>) -> (r: Result<Vec<T>, Error>)
        ensures
            !self.arity_spec().admits(args@.len()) ==> r == Err::<Vec<T>, Error>(
                Error::ArityMismatch,
            ),
            self.arity_spec().admits(args@.len()) && !self.accepts(args@) ==> r == Err::<
                Vec<T>,
                Error,
            >(Error::TypeMismatch),
            self.arity_spec().admits(args@.len()) && self.accepts(args@) ==> r == Ok::<
                Vec<T>,
                Error,
            >(args),
    {
        match self.validate_arity(args.as_slice()) {
            Err(e) => Err(e),
            Ok(_) => match self.validate_types(args.as_slice()) {
                Err(e) => Err(e),
                Ok(_) => Ok(args),
            },
        }
    }
}

/// What identifies a symbol: the module it belongs to and its name there.
/// The `id` is a cache: the dense index of the column the handle names, once
/// the column set has assigned one.
pub struct Handle {
    pub module: String,
    pub name: String,
    pub id: Option<usize>,
}

/// The mathematical content of a [`Handle`].
pub struct HandleView {
    pub module: Seq<char>,
    pub name: Seq<char>,
    pub id: Option<usize>,
}

impl HandleView {
    /// The part of a handle that identifies it.
    pub open spec fn key(self) -> (Seq<char>, Seq<char>) {
        (self.module, self.name)
    }
}

impl View for Handle {
    type V = HandleView;

    open spec fn view(&self) -> HandleView {
        HandleView { module: self.module@, name: self.name@, id: self.id }
    }
}

impl PartialEq for Handle {
    fn eq(&self, other: &Self) -> (r: bool) {
        self.module == other.module && self.name == other.name
    }
}

impl PartialEqSpecImpl for Handle {
    open spec fn obeys_eq_spec() -> bool {
        true
    }

    open spec fn eq_spec(&self, other: &Self) -> bool {
        self.module@ == other.module@ && self.name@ == other.name@
    }
}

impl Eq for Handle {

}

impl Clone for Handle {
    fn clone(&self) -> (r: Self)
        ensures
            r == *self,
    {
        Handle { module: self.module.clone(), name: self.name.clone(), id: self.id }
    }
}

/// What a single character becomes in a mangled identifier.
pub open spec fn purify_char(c: char) -> Seq<char> {
    if c == '(' || c == ')' || c == '{' || c == '}' || c == '[' || c == ']' || c == ':' || c == '%'
        || c == '.' {
        seq!['_']
    } else if c == '<' || c == '>' {
        Seq::<char>::empty()
    } else if c == '-' {
        seq!['s', 'u', 'b']
    } else if c == '*' {
        seq!['m', 'u', 'l']
    } else if c == '+' {
        seq!['a', 'd', 'd']
    } else if c == '/' {
        seq!['d', 'i', 'v']
    } else if (c as u32) >= 128 {
        seq!['_']
    } else {
        seq![c]
    }
}

/// `s` with each character replaced by what it becomes in a mangled
/// identifier.
pub open spec fn purify_spec(s: Seq<char>) -> Seq<char>
    decreases s.len(),
{
    if s.len() == 0 {
        Seq::<char>::empty()
    } else {
        purify_spec(s.drop_last()) + purify_char(s.last())
    }
}

/// The mangled identifier of the symbol `name` of `module`.
pub open spec fn mangle_spec(module: Seq<char>, name: Seq<char>) -> Seq<char> {
    purify_spec(module) + (if module.len() == 0 {
        Seq::<char>::empty()
    } else {
        seq!['_', '_']
    }) + purify_spec(name)
}

/// Whether mangling leaves every character of `s` as it is.
pub open spec fn is_plain(s: Seq<char>) -> bool {
    forall|i: int| 0 <= i < s.len() ==> #[trigger] purify_char(s[i]) == seq![s[i]]
}

/// Whether `s` is free of underscores.
pub open spec fn no_underscore(s: Seq<char>) -> bool {
    forall|i: int| 0 <= i < s.len() ==> #[trigger] s[i] != '_'
}

/// Handles on which mangling loses nothing: module and name need no
/// substitution, the module holds no underscore, and neither does the name of
/// a handle without module.
pub open spec fn mangles_faithfully(h: HandleView) -> bool {
    &&& is_plain(h.module)
    &&& is_plain(h.name)
    &&& no_underscore(h.module)
    &&& h.module.len() == 0 ==> no_underscore(h.name)
}

/// Mangling a string that needs no substitution gives the string itself.
pub proof fn lemma_purify_plain(s: Seq<char>)
    requires
        is_plain(s),
    ensures
        purify_spec(s) == s,
    decreases s.len(),
{
    if s.len() > 0 {
        assert forall|i: int| 0 <= i < s.drop_last().len() implies #[trigger] purify_char(
            s.drop_last()[i],
        ) == seq![s.drop_last()[i]] by {
            assert(s.drop_last()[i] == s[i]);
        }
        lemma_purify_plain(s.drop_last());
        assert(purify_char(s[s.len() - 1]) == seq![s[s.len() - 1]]);
        assert(s.drop_last() + seq![s.last()] =~= s);
    } else {
        assert(s =~= Seq::<char>::empty());
    }
}

/// Two handles are equal exactly when their modules and names agree,
/// whatever their ids.
pub proof fn lemma_handle_identity(a: Handle, b: Handle)
    ensures
        vstd::std_specs::cmp::PartialEqSpec::eq_spec(&a, &b) <==> a@.key() == b@.key(),
{
}

/// Two handles on which mangling loses nothing are the same symbol as soon
/// as their mangled identifiers agree.
pub proof fn lemma_mangle_injective(h1: HandleView, h2: HandleView)
    requires
        mangles_faithfully(h1),
        mangles_faithfully(h2),
        mangle_spec(h1.module, h1.name) == mangle_spec(h2.module, h2.name),
    ensures
        h1.key() == h2.key(),
{
    lemma_purify_plain(h1.module);
    lemma_purify_plain(h1.name);
    lemma_purify_plain(h2.module);
    lemma_purify_plain(h2.name);
    let m1 = mangle_spec(h1.module, h1.name);
    let m2 = mangle_spec(h2.module, h2.name);
    let sep = seq!['_', '_'];
    if h1.module.len() == 0 && h2.module.len() == 0 {
        assert(m1 =~= h1.name);
        assert(m2 =~= h2.name);
        assert(h1.module =~= h2.module);
    } else if h1.module.len() == 0 {
        assert(m1 =~= h1.name);
        assert(m2 =~= h2.module + sep + h2.name);
        assert(m2[h2.module.len() as int] == '_');
        assert(h1.name[h2.module.len() as int] != '_');
    } else if h2.module.len() == 0 {
        assert(m2 =~= h2.name);
        assert(m1 =~= h1.module + sep + h1.name);
        assert(m1[h1.module.len() as int] == '_');
        assert(h2.name[h1.module.len() as int] != '_');
    } else {
        assert(m1 =~= h1.module + sep + h1.name);
        assert(m2 =~= h2.module + sep + h2.name);
        let l1 = h1.module.len() as int;
        let l2 = h2.module.len() as int;
        assert(m1[l1] == '_');
        assert(m2[l2] == '_');
        if l1 < l2 {
            assert(m2[l1] == h2.module[l1]);
            assert(h2.module[l1] != '_');
        } else if l2 < l1 {
            assert(m1[l2] == h1.module[l2]);
            assert(h1.module[l2] != '_');
        } else {
            assert(h1.module =~= m1.subrange(0, l1));
            assert(h2.module =~= m2.subrange(0, l1));
            assert(h1.name =~= m1.subrange(l1 + 2, m1.len() as int));
            assert(h2.name =~= m2.subrange(l1 + 2, m2.len() as int));
        }
    }
}

fn push_purified(s: &mut String, c: char)
    ensures
        final(s)@ == old(s)@ + purify_char(c),
{
    if c == '(' || c == ')' || c == '{' || c == '}' || c == '[' || c == ']' || c == ':' || c == '%'
        || c == '.' {
        push_char(s, '_');
    } else if c == '<' || c == '>' {
    } else if c == '-' {
        push_char(s, 's');
        push_char(s, 'u');
        push_char(s, 'b');
    } else if c == '*' {
        push_char(s, 'm');
        push_char(s, 'u');
        push_char(s, 'l');
    } else if c == '+' {
        push_char(s, 'a');
        push_char(s, 'd');
        push_char(s, 'd');
    } else if c == '/' {
        push_char(s, 'd');
        push_char(s, 'i');
        push_char(s, 'v');
    } else if (c as u32) >= 128 {
        push_char(s, '_');
    } else {
        push_char(s, c);
    }
    assert(final(s)@ =~= old(s)@ + purify_char(c));
}

impl Handle {
    /// The handle of the symbol `name` of `module`, without id.
    pub fn new(module: &str, name: &str) -> (h: Handle)
        ensures
            h@ == (HandleView { module: module@, name: name@, id: None }),
    {
        Handle { module: module.to_owned(), name: name.to_owned(), id: None }
    }

    /// The handle of the symbol `name` of `module`, with the id `id`.
    pub fn with_id(module: &str, name: &str, id: usize) -> (h: Handle)
        ensures
            h@ == (HandleView { module: module@, name: name@, id: Some(id) }),
    {
        Handle { module: module.to_owned(), name: name.to_owned(), id: Some(id) }
    }

    /// Records `i` as the id of the handle.
    pub fn set_id(&mut self, i: usize)
        ensures
            final(self)@ == (HandleView { id: Some(i), ..old(self)@ }),
    {
        self.id = Some(i)
    }

    /// The name of the `i`-th column of the array column called `name`.
    pub open spec fn ith_name(name: Seq<char>, i: nat) -> Seq<char> {
        name + seq!['_'] + decimal(i)
    }

    /// The handle of the `i`-th column of the array column that this handle
    /// names.
    pub fn ith(&self, i: usize) -> (h: Handle)
        ensures
            h@ == (HandleView { name: Self::ith_name(self@.name, i as nat), ..self@ }),
    {
        let mut name = self.name.clone();
        push_char(&mut name, '_');
        push_decimal(&mut name, i);
        assert(name@ =~= Self::ith_name(self@.name, i as nat));
        Handle { module: self.module.clone(), name, id: self.id }
    }

    /// Replaces in `s` what cannot stand in an identifier of the emitted
    /// code: operator glyphs by words, angle brackets by nothing, other
    /// punctuation and non-ASCII characters by underscores.
    pub fn purify(s: &str) -> (r: String)
        ensures
            r@ == purify_spec(s@),
    {
        let mut r = String::new();
        for c in it: s.chars()
            invariant
                it.seq() == s@,
                r@ == purify_spec(s@.take(it.index() as int)),
        {
            assert(s@.take(it.index() + 1).drop_last() =~= s@.take(it.index() as int));
            push_purified(&mut r, c);
        }
        assert(s@.take(s@.len() as int) =~= s@);
        r
    }

    /// The identifier that stands for the handle in emitted code: the
    /// purified module and name, joined by two underscores when there is a
    /// module.
    pub fn mangle(&self) -> (r: String)
        ensures
            r@ == mangle_spec(self@.module, self@.name),
    {
        let mut r = Self::purify(self.module.as_str());
        if self.module.as_str().unicode_len() != 0 {
            push_char(&mut r, '_');
            push_char(&mut r, '_');
        }
        let n = Self::purify(self.name.as_str());
        r.append(n.as_str());
        assert(r@ =~= mangle_spec(self@.module, self@.name));
        r
    }

    /// The purified name of the handle.
    pub fn mangled_name(&self) -> (r: String)
        ensures
            r@ == purify_spec(self@.name),
    {
        Self::purify(self.name.as_str())
    }

    /// The purified module of the handle.
    pub fn mangled_module(&self) -> (r: String)
        ensures
            r@ == purify_spec(self@.module),
    {
        Self::purify(self.module.as_str())
    }

    /// The handle as `module.name`.
    pub fn to_string(&self) -> (r: String)
        ensures
            r@ == self@.module + seq!['.'] + self@.name,
    {
        let mut r = self.module.clone();
        push_char(&mut r, '.');
        r.append(self.name.as_str());
        assert(r@ =~= self@.module + seq!['.'] + self@.name);
        r
    }
}

} // verus!
