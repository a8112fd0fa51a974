//! Type spellings: how a type's written name is taken apart.
//!
//! A type is known by its spelling: a plain name (`i64`, `Point`) or a generic one with
//! its arguments in angle brackets (`list<i64>`, `map<i64, Box<string>>`).

use crate::text::same_text;
use vstd::prelude::*;

verus! {

/// A reference to a type by its spelling.
#[derive(Debug, PartialEq, Eq)]
pub struct TypeRef {
    pub name: String,
}

impl View for TypeRef {
    type V = Seq<char>;

    open spec fn view(&self) -> Seq<char> {
        self.name@
    }
}

/// The spellings of a list of types.
pub open spec fn spellings(types: Seq<TypeRef>) -> Seq<Seq<char>> {
    types.map_values(|t: TypeRef| t@)
}

/// Whether `s` starts with `prefix`.
pub open spec fn starts_with(s: Seq<char>, prefix: Seq<char>) -> bool {
    prefix.len() <= s.len() && s.take(prefix.len() as int) == prefix
}

/// `s` without the spaces before its first other character.
pub open spec fn trim_start(s: Seq<char>) -> Seq<char>
    decreases s.len(),
{
    if s.len() > 0 && s[0] == ' ' {
        trim_start(s.skip(1))
    } else {
        s
    }
}

/// `s` without the spaces behind its last other character.
pub open spec fn trim_end(s: Seq<char>) -> Seq<char>
    decreases s.len(),
{
    if s.len() > 0 && s.last() == ' ' {
        trim_end(s.drop_last())
    } else {
        s
    }
}

/// `s` without surrounding spaces.
pub open spec fn trim(s: Seq<char>) -> Seq<char> {
    trim_end(trim_start(s))
}

/// How the character at `i` changes the nesting of brackets. The `>` of an arrow is no
/// bracket.
pub open spec fn nesting(s: Seq<char>, i: int) -> int {
    if s[i] == '<' || s[i] == '(' {
        1
    } else if s[i] == ')' || (s[i] == '>' && !(i > 0 && s[i - 1] == '-')) {
        -1
    } else {
        0
    }
}

/// The pieces of `s` from `from` on, cut at the commas outside brackets; the scan stands
/// at `i`, inside `depth` brackets.
pub open spec fn pieces(s: Seq<char>, from: int, i: int, depth: int) -> Seq<Seq<char>>
    decreases s.len() - i,
{
    if i >= s.len() {
        seq![trim(s.subrange(from, s.len() as int))]
    } else if s[i] == ',' && depth == 0 {
        seq![trim(s.subrange(from, i))] + pieces(s, i + 1, i + 1, 0)
    } else {
        pieces(s, from, i + 1, depth + nesting(s, i))
    }
}

/// The arguments of a generic spelling `head<...>`.
pub open spec fn generic_args_of(name: Seq<char>, head: Seq<char>) -> Option<Seq<Seq<char>>> {
    if starts_with(name, head) && name.len() >= head.len() + 2 && name[head.len() as int] == '<'
        && name.last() == '>' {
        let inner = name.subrange(head.len() as int + 1, name.len() - 1);
        Some(pieces(inner, 0, 0, 0))
    } else {
        None
    }
}

/// The place of the first `<`, or the length where there is none.
pub open spec fn open_bracket(name: Seq<char>, i: int) -> int
    decreases name.len() - i,
{
    if i >= name.len() {
        name.len() as int
    } else if name[i] == '<' {
        i
    } else {
        open_bracket(name, i + 1)
    }
}

/// The head and arguments of a spelling `Name<args>`: none for a plain name or a
/// function type.
pub open spec fn user_generic(name: Seq<char>) -> Option<(Seq<char>, Seq<Seq<char>>)> {
    let open = open_bracket(name, 0);
    if open >= name.len() || name.last() != '>' || starts_with(name, "fn("@) {
        None
    } else {
        let head = name.take(open);
        match generic_args_of(name, head) {
            Some(args) => Some((head, args)),
            None => None,
        }
    }
}

/// The single argument of `head<T>`.
pub open spec fn only_arg(name: Seq<char>, head: Seq<char>) -> Option<Seq<char>> {
    match generic_args_of(name, head) {
        Some(args) => if args.len() == 1 {
            Some(args[0])
        } else {
            None
        },
        None => None,
    }
}

/// The two arguments of `head<A, B>`.
pub open spec fn both_args(name: Seq<char>, head: Seq<char>) -> Option<(Seq<char>, Seq<char>)> {
    match generic_args_of(name, head) {
        Some(args) => if args.len() == 2 {
            Some((args[0], args[1]))
        } else {
            None
        },
        None => None,
    }
}

/// What the last binding of `name` among the first `n` binds it to.
pub open spec fn binding(
    bindings: Seq<(Seq<char>, Seq<char>)>,
    name: Seq<char>,
    n: int,
) -> Option<Seq<char>>
    decreases n,
{
    if n <= 0 {
        None
    } else if bindings[n - 1].0 == name {
        Some(bindings[n - 1].1)
    } else {
        binding(bindings, name, n - 1)
    }
}

/// The first `n` parts, separated by a comma and a space.
pub open spec fn joined(parts: Seq<Seq<char>>, n: int) -> Seq<char>
    decreases n,
{
    if n <= 0 {
        seq![]
    } else if n == 1 {
        parts[0]
    } else {
        joined(parts, n - 1) + ", "@ + parts[n - 1]
    }
}

/// A type with its type parameters replaced by what they are bound to, through nested
/// generic spellings.
pub open spec fn substituted(name: Seq<char>, bindings: Seq<(Seq<char>, Seq<char>)>) -> Seq<char>
    decreases name.len(), 1int,
{
    match binding(bindings, name, bindings.len() as int) {
        Some(concrete) => concrete,
        None => match user_generic(name) {
            None => name,
            Some((head, args)) => {
                let parts = substituted_all(args, name.len(), bindings);
                head + "<"@ + joined(parts, parts.len() as int) + ">"@
            },
        },
    }
}

/// The arguments of a spelling of length `limit`, each with its type parameters
/// replaced. Every argument is shorter than the spelling.
pub open spec fn substituted_all(
    args: Seq<Seq<char>>,
    limit: nat,
    bindings: Seq<(Seq<char>, Seq<char>)>,
) -> Seq<Seq<char>>
    decreases limit, 0int,
{
    Seq::new(
        args.len(),
        |i: int|
            if 0 <= i < args.len() && args[i].len() < limit {
                substituted(args[i], bindings)
            } else {
                args[i]
            },
    )
}

// Facts

proof fn lemma_trim_len(s: Seq<char>)
    ensures
        trim_start(s).len() <= s.len(),
        trim_end(s).len() <= s.len(),
        trim(s).len() <= s.len(),
    decreases s.len(),
{
    lemma_trim_start_len(s);
    lemma_trim_end_len(s);
    lemma_trim_end_len(trim_start(s));
}

proof fn lemma_trim_start_len(s: Seq<char>)
    ensures
        trim_start(s).len() <= s.len(),
    decreases s.len(),
{
    if s.len() > 0 && s[0] == ' ' {
        lemma_trim_start_len(s.skip(1));
    }
}

proof fn lemma_trim_end_len(s: Seq<char>)
    ensures
        trim_end(s).len() <= s.len(),
    decreases s.len(),
{
    if s.len() > 0 && s.last() == ' ' {
        lemma_trim_end_len(s.drop_last());
    }
}

/// No piece is longer than the whole.
proof fn lemma_pieces_len(s: Seq<char>, from: int, i: int, depth: int, k: int)
    requires
        0 <= from <= i <= s.len(),
        0 <= k < pieces(s, from, i, depth).len(),
    ensures
        pieces(s, from, i, depth)[k].len() <= s.len(),
    decreases s.len() - i,
{
    if i >= s.len() {
        lemma_trim_len(s.subrange(from, s.len() as int));
    } else if s[i] == ',' && depth == 0 {
        lemma_trim_len(s.subrange(from, i));
        if k > 0 {
            lemma_pieces_len(s, i + 1, i + 1, 0, k - 1);
        }
    } else {
        lemma_pieces_len(s, from, i + 1, depth + nesting(s, i), k);
    }
}

/// An argument is shorter than the spelling it stands in.
pub proof fn law_arguments_are_shorter(name: Seq<char>, head: Seq<char>, k: int)
    requires
        generic_args_of(name, head) is Some,
        0 <= k < generic_args_of(name, head)->0.len(),
    ensures
        generic_args_of(name, head)->0[k].len() + 2 <= name.len(),
{
    let inner = name.subrange(head.len() as int + 1, name.len() - 1);
    lemma_pieces_len(inner, 0, 0, 0, k);
}

// Taking spellings apart

/// Whether `s` starts with `prefix`.
pub fn begins_with(s: &str, prefix: &str) -> (begins: bool)
    ensures
        begins == starts_with(s@, prefix@),
{
    let n: usize = prefix.unicode_len();
    if s.unicode_len() < n {
        return false;
    }
    same_text(s.substring_char(0, n), prefix)
}

/// Whether `s` ends with the character `last`.
fn ends_with_char(s: &str, last: char) -> (ends: bool)
    ensures
        ends == (s@.len() > 0 && s@.last() == last),
{
    let n: usize = s.unicode_len();
    n > 0 && s.get_char(n - 1) == last
}

/// `s` without surrounding spaces.
fn trimmed(s: &str) -> (text: String)
    ensures
        text@ == trim(s@),
{
    let mut from: usize = 0;
    let mut to: usize = s.unicode_len();
    let ghost whole = s@;
    assert(whole.subrange(0, to as int) =~= whole);
    while from < to && s.get_char(from) == ' '
        invariant
            from <= to == whole.len(),
            whole == s@,
            trim_start(whole) == trim_start(whole.subrange(from as int, to as int)),
        decreases to - from,
    {
        assert(whole.subrange(from as int, to as int).skip(1) =~= whole.subrange(
            from + 1,
            to as int,
        ));
        from += 1;
    }
    let ghost left = whole.subrange(from as int, to as int);
    assert(trim_start(whole) == left);
    while from < to && s.get_char(to - 1) == ' '
        invariant
            from <= to <= whole.len(),
            whole == s@,
            trim_end(left) == trim_end(whole.subrange(from as int, to as int)),
        decreases to,
    {
        assert(whole.subrange(from as int, to as int).drop_last() =~= whole.subrange(
            from as int,
            to - 1,
        ));
        to -= 1;
    }
    s.substring_char(from, to).to_owned()
}

/// The pieces of `s` between the commas outside brackets.
fn cut_pieces(s: &str) -> (parts: Vec<TypeRef>)
    ensures
        spellings(parts@) == pieces(s@, 0, 0, 0),
{
    let ghost whole = s@;
    let mut parts: Vec<TypeRef> = Vec::new();
    let mut from: usize = 0;
    let mut i: usize = 0;
    let mut depth: i128 = 0;
    let n: usize = s.unicode_len();
    assert(spellings(parts@) =~= seq![]);
    while i < n
        invariant
            from <= i <= n == whole.len(),
            whole == s@,
            -i <= depth <= i,
            pieces(whole, 0, 0, 0) =~= spellings(parts@) + pieces(
                whole,
                from as int,
                i as int,
                depth as int,
            ),
        decreases n - i,
    {
        let c = s.get_char(i);
        if c == ',' && depth == 0 {
            let ghost before = spellings(parts@);
            let part = TypeRef { name: trimmed(s.substring_char(from, i)) };
            let ghost view = part@;
            parts.push(part);
            proof {
                assert(spellings(parts@) =~= before.push(view));
            }
            from = i + 1;
            i += 1;
        } else {
            if c == '<' || c == '(' {
                depth += 1;
            } else if c == ')' || (c == '>' && !(i > 0 && s.get_char(i - 1) == '-')) {
                depth -= 1;
            }
            i += 1;
        }
    }
    let ghost before = spellings(parts@);
    let part = TypeRef { name: trimmed(s.substring_char(from, n)) };
    let ghost view = part@;
    parts.push(part);
    proof {
        assert(spellings(parts@) =~= before.push(view));
    }
    parts
}

/// The options a list of spellings stands for.
pub open spec fn optional_spellings(types: Option<Vec<TypeRef>>) -> Option<Seq<Seq<char>>> {
    match types {
        Some(types) => Some(spellings(types@)),
        None => None,
    }
}

impl TypeRef {
    /// The type spelled `name`.
    pub fn new(name: &str) -> (ty: TypeRef)
        ensures
            ty@ == name@,
    {
        TypeRef { name: name.to_owned() }
    }

    /// Another reference to this type.
    pub fn duplicate(&self) -> (ty: TypeRef)
        ensures
            ty@ == self@,
    {
        TypeRef { name: self.name.clone() }
    }

    /// Whether this is the absence of a value.
    pub fn is_void(&self) -> (void: bool)
        ensures
            void == (self@ == "void"@),
    {
        same_text(self.name.as_str(), "void")
    }

    /// The arguments of a generic spelling `head<...>`.
    pub fn generic_args(&self, head: &str) -> (args: Option<Vec<TypeRef>>)
        ensures
            optional_spellings(args) == generic_args_of(self@, head@),
    {
        let name = self.name.as_str();
        let h: usize = head.unicode_len();
        let n: usize = name.unicode_len();
        if begins_with(name, head) && n - h >= 2 && name.get_char(h) == '<' && ends_with_char(
            name,
            '>',
        ) {
            Some(cut_pieces(name.substring_char(h + 1, n - 1)))
        } else {
            None
        }
    }

    /// The `T` of `option<T>`.
    pub fn option_element(&self) -> (element: Option<TypeRef>)
        ensures
            match element {
                Some(t) => only_arg(self@, "option"@) == Some(t@),
                None => only_arg(self@, "option"@) is None,
            },
    {
        self.only_arg("option")
    }

    /// The `T` of `list<T>`.
    pub fn list_element(&self) -> (element: Option<TypeRef>)
        ensures
            match element {
                Some(t) => only_arg(self@, "list"@) == Some(t@),
                None => only_arg(self@, "list"@) is None,
            },
    {
        self.only_arg("list")
    }

    /// The `T` and `E` of `result<T, E>`.
    pub fn result_args(&self) -> (args: Option<(TypeRef, TypeRef)>)
        ensures
            match args {
                Some((t, e)) => both_args(self@, "result"@) == Some((t@, e@)),
                None => both_args(self@, "result"@) is None,
            },
    {
        self.both_args("result")
    }

    /// The single argument of `head<T>`.
    pub fn only_arg(&self, head: &str) -> (element: Option<TypeRef>)
        ensures
            match element {
                Some(t) => only_arg(self@, head@) == Some(t@),
                None => only_arg(self@, head@) is None,
            },
    {
        match self.generic_args(head) {
            Some(args) => {
                assert(spellings(args@).len() == args@.len());
                if args.len() == 1 {
                    Some(args[0].duplicate())
                } else {
                    None
                }
            },
            None => None,
        }
    }

    /// The two arguments of `head<A, B>`.
    pub fn both_args(&self, head: &str) -> (args: Option<(TypeRef, TypeRef)>)
        ensures
            match args {
                Some((a, b)) => both_args(self@, head@) == Some((a@, b@)),
                None => both_args(self@, head@) is None,
            },
    {
        match self.generic_args(head) {
            Some(args) => {
                assert(spellings(args@).len() == args@.len());
                if args.len() == 2 {
                    Some((args[0].duplicate(), args[1].duplicate()))
                } else {
                    None
                }
            },
            None => None,
        }
    }
}

/// The place of the first `<`, or the length where there is none.
pub fn find_open_bracket(name: &str) -> (at: usize)
    ensures
        at == open_bracket(name@, 0),
        at <= name@.len(),
{
    let n: usize = name.unicode_len();
    let mut i: usize = 0;
    while i < n
        invariant
            i <= n == name@.len(),
            open_bracket(name@, 0) == open_bracket(name@, i as int),
        decreases n - i,
    {
        if name.get_char(i) == '<' {
            return i;
        }
        i += 1;
    }
    i
}

/// Splits a generic instantiation `Name<args>` into its head and arguments
/// (`Box<i64>` into `Box` and `i64`); nothing for a plain name or a function type.
pub fn split_user_generic(ty: &TypeRef) -> (split: Option<(String, Vec<TypeRef>)>)
    ensures
        match split {
            Some((head, args)) => user_generic(ty@) == Some((head@, spellings(args@))),
            None => user_generic(ty@) is None,
        },
{
    let name = ty.name.as_str();
    let open = find_open_bracket(name);
    if open >= name.unicode_len() || !ends_with_char(name, '>') || begins_with(name, "fn(") {
        return None;
    }
    let head = name.substring_char(0, open);
    match ty.generic_args(head) {
        Some(args) => Some((head.to_owned(), args)),
        None => None,
    }
}

/// The bindings of a substitution.
pub open spec fn binding_views(bindings: Seq<(String, TypeRef)>) -> Seq<(Seq<char>, Seq<char>)> {
    bindings.map_values(|b: (String, TypeRef)| (b.0@, b.1@))
}

/// The bindings that pin each type parameter to its argument; surplus ones stay unbound.
pub open spec fn zipped(params: Seq<Seq<char>>, args: Seq<Seq<char>>) -> Seq<
    (Seq<char>, Seq<char>),
> {
    Seq::new(
        if params.len() <= args.len() {
            params.len()
        } else {
            args.len()
        },
        |i: int| (params[i], args[i]),
    )
}

/// The substitution that pins each declared type parameter to its concrete argument. A
/// shorter argument list leaves the surplus parameters unbound.
pub fn subst_map(type_params: &Vec<String>, args: &Vec<TypeRef>) -> (bindings: Vec<
    (String, TypeRef),
>)
    ensures
        binding_views(bindings@) == zipped(
            type_params@.map_values(|p: String| p@),
            spellings(args@),
        ),
{
    let ghost all = zipped(type_params@.map_values(|p: String| p@), spellings(args@));
    let mut bindings: Vec<(String, TypeRef)> = Vec::new();
    let mut i: usize = 0;
    while i < type_params.len() && i < args.len()
        invariant
            i <= all.len(),
            i <= type_params@.len(),
            i <= args@.len(),
            all == zipped(type_params@.map_values(|p: String| p@), spellings(args@)),
            binding_views(bindings@) =~= all.take(i as int),
        decreases args@.len() - i,
    {
        let ghost before = binding_views(bindings@);
        let one = (type_params[i].clone(), args[i].duplicate());
        let ghost view = (one.0@, one.1@);
        bindings.push(one);
        proof {
            assert(binding_views(bindings@) =~= before.push(view));
            assert(all[i as int] == view);
            assert(all.take(i + 1) =~= all.take(i as int).push(view));
        }
        i += 1;
    }
    assert(all.take(i as int) =~= all);
    bindings
}

/// What `name` is bound to.
fn look_up(bindings: &Vec<(String, TypeRef)>, name: &String) -> (found: Option<TypeRef>)
    ensures
        match found {
            Some(t) => binding(binding_views(bindings@), name@, bindings@.len() as int) == Some(
                t@,
            ),
            None => binding(binding_views(bindings@), name@, bindings@.len() as int) is None,
        },
{
    let ghost views = binding_views(bindings@);
    let mut i: usize = bindings.len();
    while i > 0
        invariant
            i <= bindings@.len(),
            views == binding_views(bindings@),
            binding(views, name@, bindings@.len() as int) == binding(views, name@, i as int),
        decreases i,
    {
        assert(views[i - 1].0 == bindings@[i - 1].0@);
        if bindings[i - 1].0 == *name {
            return Some(bindings[i - 1].1.duplicate());
        }
        i -= 1;
    }
    None
}

/// A type with its type parameters replaced by what they are bound to (`list<T>` with
/// `T` bound to `i64` is `list<i64>`).
pub fn substitute_type(ty: &TypeRef, bindings: &Vec<(String, TypeRef)>) -> (concrete: TypeRef)
    ensures
        concrete@ == substituted(ty@, binding_views(bindings@)),
    decreases ty@.len(),
{
    let ghost views = binding_views(bindings@);
    if let Some(found) = look_up(bindings, &ty.name) {
        return found;
    }
    match split_user_generic(ty) {
        None => ty.duplicate(),
        Some((head, args)) => {
            let ghost spelled = spellings(args@);
            let ghost parts = substituted_all(spelled, ty@.len(), views);
            let mut text = String::new();
            assert(text@ =~= joined(parts, 0));
            let mut i: usize = 0;
            while i < args.len()
                invariant
                    i <= args@.len() == parts.len(),
                    views == binding_views(bindings@),
                    spelled == spellings(args@),
                    generic_args_of(ty@, head@) == Some(spelled),
                    parts == substituted_all(spelled, ty@.len(), views),
                    text@ == joined(parts, i as int),
                decreases args@.len() - i,
            {
                proof {
                    law_arguments_are_shorter(ty@, head@, i as int);
                    assert(spelled[i as int] == args@[i as int]@);
                }
                let part = substitute_type(&args[i], bindings);
                if i > 0 {
                    text.append(", ");
                }
                text.append(part.name.as_str());
                proof {
                    assert(parts[i as int] == part@);
                    if i == 0 {
                        assert(joined(parts, 0) + parts[0] =~= parts[0]);
                    }
                }
                i += 1;
            }
            let name = head.concat("<").concat(text.as_str()).concat(">");
            TypeRef { name }
        },
    }
}

// Reading spellings back

/// A type as its parts: a name, a generic type with its arguments, or a function type with
/// its parameters and its result.
pub enum Spelling {
    Name(Seq<char>),
    Generic(Seq<char>, Seq<Spelling>),
    Function(Seq<Spelling>, Box<Spelling>),
}

/// How a type is spelled.
pub open spec fn spelled(t: Spelling) -> Seq<char>
    decreases t, 0int,
{
    match t {
        Spelling::Name(name) => name,
        Spelling::Generic(head, args) => head + seq!['<'] + listed(args, args.len() as int) + seq![
            '>',
        ],
        Spelling::Function(params, result) => seq!['f', 'n', '('] + listed(
            params,
            params.len() as int,
        ) + seq![')', ' ', '-', '>', ' '] + spelled(*result),
    }
}

/// The first `n` types, separated by a comma and a space.
pub open spec fn listed(args: Seq<Spelling>, n: int) -> Seq<char>
    decreases args, n,
{
    if n <= 0 || n > args.len() {
        seq![]
    } else if n == 1 {
        spelled(args[0])
    } else {
        listed(args, n - 1) + seq![',', ' '] + spelled(args[n - 1])
    }
}

/// Whether a character can stand in a name.
pub open spec fn in_name(c: char) -> bool {
    c != '<' && c != '>' && c != '(' && c != ')' && c != ',' && c != '-' && c != ' '
}

/// Whether `name` is a name.
pub open spec fn is_name(name: Seq<char>) -> bool {
    name.len() > 0 && forall|i: int| 0 <= i < name.len() ==> in_name(#[trigger] name[i])
}

/// Whether a type is made of names, with at least one argument for each generic type.
pub open spec fn proper(t: Spelling) -> bool
    decreases t,
{
    match t {
        Spelling::Name(name) => is_name(name),
        Spelling::Generic(head, args) => is_name(head) && args.len() > 0 && forall|i: int|
            0 <= i < args.len() ==> proper(#[trigger] args[i]),
        Spelling::Function(params, result) => proper(*result) && forall|i: int|
            0 <= i < params.len() ==> proper(#[trigger] params[i]),
    }
}

/// A spelling's first and last characters belong to it.
proof fn lemma_spelling_ends(t: Spelling)
    requires
        proper(t),
    ensures
        spelled(t).len() > 0,
        spelled(t)[0] != ' ',
        spelled(t).last() != ' ',
        spelled(t).last() != '-',
    decreases t,
{
    match t {
        Spelling::Name(name) => {
            assert(in_name(name[0]) && in_name(name.last()));
        },
        Spelling::Generic(head, args) => {
            assert(in_name(head[0]));
            assert(spelled(t)[0] == head[0]);
        },
        Spelling::Function(params, result) => {
            lemma_spelling_ends(*result);
            assert(spelled(t).last() == spelled(*result).last());
        },
    }
}

proof fn lemma_list_ends(args: Seq<Spelling>, n: int)
    requires
        forall|i: int| 0 <= i < args.len() ==> proper(#[trigger] args[i]),
        0 < n <= args.len(),
    ensures
        listed(args, n).len() > 0,
        listed(args, n).last() != '-',
{
    lemma_spelling_ends(args[n - 1]);
    assert(listed(args, n).last() == spelled(args[n - 1]).last());
}

/// Characters of names leave the scan as it is.
proof fn lemma_scan_name(s: Seq<char>, from: int, p: int, q: int, depth: int)
    requires
        0 <= p <= q <= s.len(),
        forall|i: int| p <= i < q ==> in_name(#[trigger] s[i]),
    ensures
        pieces(s, from, p, depth) == pieces(s, from, q, depth),
    decreases q - p,
{
    if p < q {
        assert(in_name(s[p]));
        lemma_scan_name(s, from, p + 1, q, depth);
    }
}

/// Scanning over a spelling ends as deep as it began, without a cut.
proof fn lemma_scan(s: Seq<char>, from: int, p: int, depth: int, t: Spelling)
    requires
        proper(t),
        0 <= depth,
        0 <= p,
        p + spelled(t).len() <= s.len(),
        s.subrange(p, p + spelled(t).len()) == spelled(t),
    ensures
        pieces(s, from, p, depth) == pieces(s, from, p + spelled(t).len(), depth),
    decreases t, 0int,
{
    let whole = spelled(t);
    assert forall|i: int| 0 <= i < whole.len() implies #[trigger] s[p + i] == whole[i] by {
        assert(s.subrange(p, p + whole.len())[i] == s[p + i]);
    }
    match t {
        Spelling::Name(name) => {
            assert forall|i: int| p <= i < p + name.len() implies in_name(#[trigger] s[i]) by {
                assert(s[p + (i - p)] == whole[i - p]);
                assert(in_name(name[i - p]));
            }
            lemma_scan_name(s, from, p, p + name.len(), depth);
        },
        Spelling::Generic(head, args) => {
            let list = listed(args, args.len() as int);
            let open = p + head.len();
            let close = open + 1 + list.len();
            assert forall|i: int| p <= i < open implies in_name(#[trigger] s[i]) by {
                assert(s[p + (i - p)] == whole[i - p]);
                assert(whole[i - p] == head[i - p]);
                assert(in_name(head[i - p]));
            }
            lemma_scan_name(s, from, p, open, depth);
            assert(s[p + head.len()] == whole[head.len() as int]);
            assert(s[open] == '<');
            assert(s.subrange(open + 1, close) =~= list) by {
                assert forall|i: int| 0 <= i < list.len() implies s[open + 1 + i] == list[i] by {
                    assert(s[p + (head.len() + 1 + i)] == whole[head.len() + 1 + i]);
                }
            }
            lemma_scan_list(s, from, open + 1, depth + 1, args, args.len() as int);
            lemma_list_ends(args, args.len() as int);
            assert(s[p + (head.len() + 1 + list.len())] == whole[(head.len() + 1 + list.len())
                as int]);
            assert(s[close] == '>');
            assert(s[close - 1] == s.subrange(open + 1, close).last());
            assert(close + 1 == p + whole.len());
        },
        Spelling::Function(params, result) => {
            let list = listed(params, params.len() as int);
            let inside = p + 3;
            let close = inside + list.len();
            assert(s[p + 0] == 'f' && s[p + 1] == 'n' && s[p + 2] == '(');
            lemma_scan_name(s, from, p, p + 2, depth);
            assert(s.subrange(inside, close) =~= list) by {
                assert forall|i: int| 0 <= i < list.len() implies s[inside + i] == list[i] by {
                    assert(s[p + (3 + i)] == whole[3 + i]);
                }
            }
            lemma_scan_list(s, from, inside, depth + 1, params, params.len() as int);
            let n = list.len() as int;
            assert(s[p + (3 + n)] == ')' && s[p + (4 + n)] == ' ' && s[p + (5 + n)] == '-' && s[p
                + (6 + n)] == '>' && s[p + (7 + n)] == ' ');
            assert(pieces(s, from, close, depth + 1) == pieces(s, from, close + 5, depth)) by {
                reveal_with_fuel(pieces, 6);
            }
            let rest = spelled(*result);
            assert(s.subrange(close + 5, close + 5 + rest.len()) =~= rest) by {
                assert forall|i: int| 0 <= i < rest.len() implies s[close + 5 + i] == rest[i] by {
                    assert(s[p + (8 + n + i)] == whole[8 + n + i]);
                }
            }
            lemma_scan(s, from, close + 5, depth, *result);
        },
    }
}

/// So does scanning over a list inside brackets.
proof fn lemma_scan_list(
    s: Seq<char>,
    from: int,
    p: int,
    depth: int,
    args: Seq<Spelling>,
    n: int,
)
    requires
        forall|i: int| 0 <= i < args.len() ==> proper(#[trigger] args[i]),
        0 <= n <= args.len(),
        1 <= depth,
        0 <= p,
        p + listed(args, n).len() <= s.len(),
        s.subrange(p, p + listed(args, n).len()) == listed(args, n),
    ensures
        pieces(s, from, p, depth) == pieces(s, from, p + listed(args, n).len(), depth),
    decreases args, n,
{
    let whole = listed(args, n);
    if n == 1 {
        lemma_scan(s, from, p, depth, args[0]);
    } else if n > 1 {
        let before = listed(args, n - 1);
        let last = spelled(args[n - 1]);
        let comma = p + before.len();
        assert forall|i: int| 0 <= i < whole.len() implies #[trigger] s[p + i] == whole[i] by {
            assert(s.subrange(p, p + whole.len())[i] == s[p + i]);
        }
        assert(s.subrange(p, comma) =~= before) by {
            assert forall|i: int| 0 <= i < before.len() implies s[p + i] == before[i] by {
                assert(s[p + i] == whole[i]);
            }
        }
        lemma_scan_list(s, from, p, depth, args, n - 1);
        let m = before.len() as int;
        assert(s[p + m] == ',' && s[p + (m + 1)] == ' ');
        assert(pieces(s, from, comma as int, depth) == pieces(s, from, comma + 2, depth)) by {
            reveal_with_fuel(pieces, 3);
        }
        assert(s.subrange(comma + 2, comma + 2 + last.len()) =~= last) by {
            assert forall|i: int| 0 <= i < last.len() implies s[comma + 2 + i] == last[i] by {
                assert(s[p + (m + 2 + i)] == whole[m + 2 + i]);
            }
        }
        lemma_scan(s, from, comma + 2, depth, args[n - 1]);
    }
}

/// A longer list begins with the shorter one, a comma and a space.
proof fn lemma_list_grows(args: Seq<Spelling>, k: int, n: int)
    requires
        0 < k <= n <= args.len(),
    ensures
        listed(args, k).len() <= listed(args, n).len(),
        listed(args, n).take(listed(args, k).len() as int) == listed(args, k),
        k < n ==> {
            let m = listed(args, k).len() as int;
            &&& m + 2 <= listed(args, n).len()
            &&& listed(args, n)[m] == ','
            &&& listed(args, n)[m + 1] == ' '
        },
    decreases n - k,
{
    let m = listed(args, k).len() as int;
    if k == n {
        assert(listed(args, n).take(m) =~= listed(args, k));
    } else {
        lemma_list_grows(args, k, n - 1);
        assert(listed(args, n).take(m) =~= listed(args, n - 1).take(m));
    }
}

proof fn lemma_trimmed(s: Seq<char>, text: Seq<char>)
    requires
        text.len() > 0,
        text[0] != ' ',
        text.last() != ' ',
        s == text || s == seq![' '] + text,
    ensures
        trim(s) == text,
{
    if s != text {
        assert(s.skip(1) =~= text);
        assert(trim_start(text) == text);
    }
}

/// The place behind the comma of argument `k`.
spec fn after_comma(args: Seq<Spelling>, k: int) -> int {
    if k <= 0 {
        0
    } else {
        listed(args, k).len() as int + 1
    }
}

proof fn lemma_cut(args: Seq<Spelling>, k: int)
    requires
        forall|i: int| 0 <= i < args.len() ==> proper(#[trigger] args[i]),
        0 <= k < args.len(),
    ensures
        ({
            let from = after_comma(args, k);
            pieces(listed(args, args.len() as int), from, from, 0) =~= Seq::new(
                (args.len() - k) as nat,
                |i: int| spelled(args[k + i]),
            )
        }),
    decreases args.len() - k,
{
    let n = args.len() as int;
    let s = listed(args, n);
    let from = after_comma(args, k);
    let text = spelled(args[k]);
    let end = listed(args, k + 1).len() as int;
    let start = end - text.len();
    lemma_spelling_ends(args[k]);
    lemma_list_grows(args, k + 1, n);
    assert(listed(args, k + 1).subrange(start, end) =~= text);
    assert(s.subrange(start, end) =~= s.take(end).subrange(start, end));
    if k > 0 {
        lemma_list_grows(args, k, n);
        assert(s[from] == ' ');
        assert(pieces(s, from, from, 0) == pieces(s, from, start, 0));
        assert(s.subrange(from, end) =~= seq![' '] + text);
    }
    lemma_scan(s, from, start, 0, args[k]);
    lemma_trimmed(s.subrange(from, end), text);
    if k + 1 < n {
        lemma_cut(args, k + 1);
        assert(after_comma(args, k + 1) == end + 1);
        assert(pieces(s, from, end, 0) == seq![text] + pieces(s, end + 1, end + 1, 0));
    } else {
        assert(pieces(s, from, end, 0) == seq![text]);
    }
}

/// The arguments of a generic type are read back from its spelling, however deep they nest
/// and whichever of them are function types; so is its head.
pub proof fn law_arguments_read_back(head: Seq<char>, args: Seq<Spelling>)
    requires
        proper(Spelling::Generic(head, args)),
    ensures
        ({
            let name = spelled(Spelling::Generic(head, args));
            let texts = Seq::new(args.len(), |i: int| spelled(args[i]));
            &&& generic_args_of(name, head) == Some(texts)
            &&& user_generic(name) == Some((head, texts))
        }),
{
    let name = spelled(Spelling::Generic(head, args));
    let list = listed(args, args.len() as int);
    let texts = Seq::new(args.len(), |i: int| spelled(args[i]));
    let inner = name.subrange(head.len() as int + 1, name.len() - 1);
    assert(inner =~= list);
    lemma_cut(args, 0);
    assert(pieces(list, 0, 0, 0) =~= texts);
    assert(name.take(head.len() as int) =~= head);
    assert(in_name(head[0]));
    assert forall|j: int| 0 <= j < head.len() implies (#[trigger] name[j]) != '<' by {
        assert(in_name(head[j]));
    }
    lemma_open_bracket(name, head.len() as int, 0);
    reveal_strlit("fn(");
    if starts_with(name, "fn("@) {
        let begin = name.take(3);
        assert(begin[1] == name[1] && begin[2] == name[2]);
        assert(begin[1] == 'n' && begin[2] == '(');
        assert(head.len() > 1 ==> name[1] == head[1]);
        assert(head.len() > 2 ==> in_name(head[2]) && name[2] == head[2]);
        assert(false);
    }
}

proof fn lemma_open_bracket(name: Seq<char>, open: int, i: int)
    requires
        0 <= i <= open < name.len(),
        name[open] == '<',
        forall|j: int| 0 <= j < open ==> (#[trigger] name[j]) != '<',
    ensures
        open_bracket(name, i) == open,
    decreases open - i,
{
    if i < open {
        lemma_open_bracket(name, open, i + 1);
    }
}

/// The last binding of a name is the one that counts, and a name is bound wherever a binding
/// of it stands.
pub proof fn law_last_binding_counts(
    bindings: Seq<(Seq<char>, Seq<char>)>,
    name: Seq<char>,
    n: int,
)
    requires
        0 <= n <= bindings.len(),
    ensures
        match binding(bindings, name, n) {
            Some(bound) => exists|k: int|
                0 <= k < n && #[trigger] bindings[k] == (name, bound) && forall|j: int|
                    k < j < n ==> (#[trigger] bindings[j]).0 != name,
            None => forall|j: int| 0 <= j < n ==> (#[trigger] bindings[j]).0 != name,
        },
    decreases n,
{
    if n > 0 {
        if bindings[n - 1].0 == name {
            assert(bindings[n - 1] == (name, bindings[n - 1].1));
        } else {
            law_last_binding_counts(bindings, name, n - 1);
        }
    }
}

/// A type with each bound name in it, but for those inside function types, replaced by what
/// it is bound to.
pub open spec fn replaced(t: Spelling, bindings: Seq<(Seq<char>, Seq<char>)>) -> Spelling
    decreases t,
{
    match t {
        Spelling::Name(name) => match binding(bindings, name, bindings.len() as int) {
            Some(bound) => Spelling::Name(bound),
            None => t,
        },
        Spelling::Generic(head, args) => Spelling::Generic(
            head,
            Seq::new(
                args.len(),
                |i: int|
                    if 0 <= i < args.len() {
                        replaced(args[i], bindings)
                    } else {
                        t
                    },
            ),
        ),
        Spelling::Function(..) => t,
    }
}

proof fn lemma_joined_is_listed(parts: Seq<Seq<char>>, args: Seq<Spelling>, n: int)
    requires
        0 <= n <= args.len() == parts.len(),
        forall|i: int| 0 <= i < args.len() ==> parts[i] == spelled(#[trigger] args[i]),
    ensures
        joined(parts, n) == listed(args, n),
    decreases n,
{
    reveal_strlit(", ");
    assert(", "@ =~= seq![',', ' ']);
    if n == 1 {
        assert(parts[0] == spelled(args[0]));
    } else if n > 1 {
        lemma_joined_is_listed(parts, args, n - 1);
        assert(parts[n - 1] == spelled(args[n - 1]));
    }
}

/// A spelling that is no name is not bound where only names are.
proof fn lemma_unbound(bindings: Seq<(Seq<char>, Seq<char>)>, name: Seq<char>, i: int, n: int)
    requires
        0 <= n <= bindings.len(),
        forall|k: int| 0 <= k < bindings.len() ==> is_name((#[trigger] bindings[k]).0),
        0 <= i < name.len(),
        !in_name(name[i]),
    ensures
        binding(bindings, name, n) is None,
    decreases n,
{
    if n > 0 {
        assert(is_name(bindings[n - 1].0));
        lemma_unbound(bindings, name, i, n - 1);
    }
}

/// Substituting in a spelling gives the spelling of the type with its names replaced.
pub proof fn law_substitution_replaces_names(t: Spelling, bindings: Seq<(Seq<char>, Seq<char>)>)
    requires
        proper(t),
        forall|k: int| 0 <= k < bindings.len() ==> is_name((#[trigger] bindings[k]).0),
    ensures
        substituted(spelled(t), bindings) == spelled(replaced(t, bindings)),
    decreases t,
{
    let name = spelled(t);
    let count = bindings.len() as int;
    match t {
        Spelling::Name(n) => {
            lemma_no_bracket(name, 0);
        },
        Spelling::Generic(head, args) => {
            let texts = Seq::new(args.len(), |i: int| spelled(args[i]));
            law_arguments_read_back(head, args);
            assert(name[head.len() as int] == '<');
            lemma_unbound(bindings, name, head.len() as int, count);
            let parts = substituted_all(texts, name.len(), bindings);
            let others = replaced(t, bindings)->Generic_1;
            assert forall|i: int| 0 <= i < others.len() implies parts[i] == spelled(
                #[trigger] others[i],
            ) by {
                law_arguments_are_shorter(name, head, i);
                assert(proper(args[i]));
                law_substitution_replaces_names(args[i], bindings);
            }
            lemma_joined_is_listed(parts, others, others.len() as int);
            reveal_strlit("<");
            reveal_strlit(">");
            assert("<"@ =~= seq!['<']);
            assert(">"@ =~= seq!['>']);
        },
        Spelling::Function(params, result) => {
            assert(name[2] == '(');
            lemma_unbound(bindings, name, 2, count);
            reveal_strlit("fn(");
            assert(name.take(3) =~= "fn("@);
        },
    }
}

proof fn lemma_no_bracket(name: Seq<char>, i: int)
    requires
        0 <= i <= name.len(),
        is_name(name),
    ensures
        open_bracket(name, i) == name.len(),
    decreases name.len() - i,
{
    if i < name.len() {
        assert(in_name(name[i]));
        lemma_no_bracket(name, i + 1);
    }
}

} // verus!
