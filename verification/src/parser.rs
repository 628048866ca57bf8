//! Route templates and their grammar.
use crate::text;
use vstd::prelude::*;

verus! {

/// The operator of an expression, which says how its values are written.
#[derive(Clone, Copy, Debug, PartialEq, Eq, Structural)]
pub enum Op {
    Simple,
    Reserved,
    Fragment,
    Label,
    Path,
    PathParam,
    Query,
    QueryCont,
}

/// What an expression does to the value of a variable.
#[derive(Clone, Copy, Debug, PartialEq, Eq, Structural)]
pub enum VarMod {
    /// Only the first characters are written.
    Prefix(u16),
    /// Each item of a list or pair of a map is written as a value of its own.
    Explode,
    /// The value is written as it is.
    Whole,
}

/// A variable in an expression.
#[derive(Debug)]
pub struct VarSpec {
    pub varname: String,
    pub modifier: VarMod,
}

/// An operator and the variables that it writes.
#[derive(Debug)]
pub struct Expression {
    pub operator: Op,
    pub varspecs: Vec<VarSpec>,
}

/// A piece of a template.
#[derive(Debug)]
pub enum Part {
    /// Text that stands in every URI of the family.
    Lit(String),
    /// An expression such as `{name}`.
    Expression(Expression),
    /// An expression such as `{/name}`.
    SegPathVar(Expression),
    /// A slash and an expression such as `{rest*}`, which takes what is left of the path.
    SegRest(Expression),
    /// An expression such as `{/rest*}`.
    SegPathRest(Expression),
}

/// A template, taken apart.
#[derive(Debug)]
pub struct Parsed {
    /// The scheme and the authority.
    pub auth: Option<Vec<Part>>,
    pub path: Vec<Part>,
    pub query: Option<Vec<Part>>,
    pub fragment: Option<Vec<Part>>,
    /// The variable that takes the parameters of the path that no other variable names.
    pub path_assoc: Option<String>,
    /// The variable that takes the parameters of the query that no other variable names.
    pub query_assoc: Option<String>,
}

/// What a `VarSpec` stands for.
#[verifier::ext_equal]
pub struct SpecOfVar {
    pub name: Seq<char>,
    pub modifier: VarMod,
}

/// What an `Expression` stands for.
#[verifier::ext_equal]
pub struct SpecOfExpression {
    pub operator: Op,
    pub vars: Seq<SpecOfVar>,
}

/// What a `Part` stands for.
#[verifier::ext_equal]
pub enum SpecOfPart {
    Lit(Seq<char>),
    Expression(SpecOfExpression),
    SegPathVar(SpecOfExpression),
    SegRest(SpecOfExpression),
    SegPathRest(SpecOfExpression),
}

/// What a `Parsed` stands for.
#[verifier::ext_equal]
pub struct SpecOfParsed {
    pub auth: Option<Seq<SpecOfPart>>,
    pub path: Seq<SpecOfPart>,
    pub query: Option<Seq<SpecOfPart>>,
    pub fragment: Option<Seq<SpecOfPart>>,
    pub path_assoc: Option<Seq<char>>,
    pub query_assoc: Option<Seq<char>>,
}

impl View for VarSpec {
    type V = SpecOfVar;

    open spec fn view(&self) -> SpecOfVar {
        SpecOfVar { name: self.varname@, modifier: self.modifier }
    }
}

/// What a list of variables stands for.
pub open spec fn vars_view(vars: Seq<VarSpec>) -> Seq<SpecOfVar> {
    Seq::new(vars.len(), |i: int| vars[i]@)
}

impl View for Expression {
    type V = SpecOfExpression;

    open spec fn view(&self) -> SpecOfExpression {
        SpecOfExpression { operator: self.operator, vars: vars_view(self.varspecs@) }
    }
}

impl View for Part {
    type V = SpecOfPart;

    open spec fn view(&self) -> SpecOfPart {
        match *self {
            Part::Lit(l) => SpecOfPart::Lit(l@),
            Part::Expression(e) => SpecOfPart::Expression(e@),
            Part::SegPathVar(e) => SpecOfPart::SegPathVar(e@),
            Part::SegRest(e) => SpecOfPart::SegRest(e@),
            Part::SegPathRest(e) => SpecOfPart::SegPathRest(e@),
        }
    }
}

/// What a list of parts stands for.
pub open spec fn parts_view(parts: Seq<Part>) -> Seq<SpecOfPart> {
    Seq::new(parts.len(), |i: int| parts[i]@)
}

/// The view of a list that grows by one variable.
pub broadcast proof fn vars_view_push(vars: Seq<VarSpec>, var: VarSpec)
    ensures
        #[trigger] vars_view(vars.push(var)) == vars_view(vars).push(var@),
{
    assert(vars_view(vars.push(var)) =~= vars_view(vars).push(var@));
}

/// The view of a list that grows by one part.
pub broadcast proof fn parts_view_push(parts: Seq<Part>, part: Part)
    ensures
        #[trigger] parts_view(parts.push(part)) == parts_view(parts).push(part@),
{
    assert(parts_view(parts.push(part)) =~= parts_view(parts).push(part@));
}

/// What an optional list of parts stands for.
pub open spec fn section_view(section: Option<Vec<Part>>) -> Option<Seq<SpecOfPart>> {
    match section {
        Some(parts) => Some(parts_view(parts@)),
        None => None,
    }
}

impl View for Parsed {
    type V = SpecOfParsed;

    open spec fn view(&self) -> SpecOfParsed {
        SpecOfParsed {
            auth: section_view(self.auth),
            path: parts_view(self.path@),
            query: section_view(self.query),
            fragment: section_view(self.fragment),
            path_assoc: text::text_of_option(self.path_assoc),
            query_assoc: text::text_of_option(self.query_assoc),
        }
    }
}

/// The parts of a section, which has none where it is missing.
pub open spec fn section_parts(section: Option<Seq<SpecOfPart>>) -> Seq<SpecOfPart> {
    match section {
        Some(parts) => parts,
        None => Seq::empty(),
    }
}

impl SpecOfParsed {
    /// All the parts, in the order in which they are written.
    pub open spec fn parts(self) -> Seq<SpecOfPart> {
        self.before_query() + section_parts(self.query) + section_parts(self.fragment)
    }

    /// The parts of the authority and of the path.
    pub open spec fn before_query(self) -> Seq<SpecOfPart> {
        section_parts(self.auth) + self.path
    }
}

impl SpecOfPart {
    /// The expression of the part, if it is no literal.
    pub open spec fn expression(self) -> Option<SpecOfExpression> {
        match self {
            SpecOfPart::Lit(_) => None,
            SpecOfPart::Expression(e) => Some(e),
            SpecOfPart::SegPathVar(e) => Some(e),
            SpecOfPart::SegRest(e) => Some(e),
            SpecOfPart::SegPathRest(e) => Some(e),
        }
    }
}

/// The variables of a part, in order.
pub open spec fn part_vars(part: SpecOfPart) -> Seq<SpecOfVar> {
    match part.expression() {
        Some(e) => e.vars,
        None => Seq::empty(),
    }
}

/// The variables of all the parts, in order.
pub open spec fn vars_of(parts: Seq<SpecOfPart>) -> Seq<SpecOfVar>
    decreases parts.len(),
{
    if parts.len() == 0 {
        Seq::empty()
    } else {
        vars_of(parts.drop_last()) + part_vars(parts.last())
    }
}

/// The names of the variables.
pub open spec fn names(vars: Seq<SpecOfVar>) -> Seq<Seq<char>> {
    Seq::new(vars.len(), |i: int| vars[i].name)
}

/// The names, each where it stands first.
pub open spec fn distinct(names: Seq<Seq<char>>) -> Seq<Seq<char>>
    decreases names.len(),
{
    if names.len() == 0 {
        Seq::empty()
    } else {
        let before = distinct(names.drop_last());
        if before.contains(names.last()) {
            before
        } else {
            before.push(names.last())
        }
    }
}

/// Each name is there once, and no other.
pub proof fn law_distinct(names: Seq<Seq<char>>)
    ensures
        distinct(names).no_duplicates(),
        forall|name: Seq<char>| #[trigger] distinct(names).contains(name) <==> names.contains(name),
    decreases names.len(),
{
    if names.len() > 0 {
        let before = distinct(names.drop_last());
        let last = names.last();
        law_distinct(names.drop_last());
        assert forall|name: Seq<char>| #[trigger]
            distinct(names).contains(name) <==> names.contains(name) by {
            assert(names.drop_last().contains(name) || name == last <==> names.contains(name)) by {
                assert(names == names.drop_last().push(last));
                if names.contains(name) {
                    let i = choose|i: int| 0 <= i < names.len() && names[i] == name;
                    if i < names.len() - 1 {
                        assert(names.drop_last()[i] == name);
                    }
                }
                if names.drop_last().contains(name) {
                    let i = choose|i: int|
                        0 <= i < names.drop_last().len() && names.drop_last()[i] == name;
                    assert(names[i] == name);
                }
                assert(names[names.len() - 1] == last);
            }
            assert(before.push(last).contains(name) <==> before.contains(name) || name == last) by {
                let all = before.push(last);
                assert(all[before.len() as int] == last);
                if before.contains(name) {
                    let i = choose|i: int| 0 <= i < before.len() && before[i] == name;
                    assert(all[i] == name);
                }
                if all.contains(name) {
                    let i = choose|i: int| 0 <= i < all.len() && all[i] == name;
                    if i < before.len() {
                        assert(before[i] == name);
                    }
                }
            }
        }
    }
}

impl Clone for VarSpec {
    fn clone(&self) -> (copy: Self)
        ensures
            copy@ == self@,
    {
        VarSpec { varname: self.varname.clone(), modifier: self.modifier }
    }
}

impl Clone for Expression {
    fn clone(&self) -> (copy: Self)
        ensures
            copy@ == self@,
    {
        let mut varspecs: Vec<VarSpec> = Vec::new();
        let mut i: usize = 0;
        while i < self.varspecs.len()
            invariant
                i <= self.varspecs@.len(),
                vars_view(varspecs@) == vars_view(self.varspecs@).take(i as int),
            decreases self.varspecs@.len() - i,
        {
            broadcast use vars_view_push;

            varspecs.push(self.varspecs[i].clone());
            i = i + 1;
            assert(vars_view(varspecs@) =~= vars_view(self.varspecs@).take(i as int));
        }
        assert(vars_view(varspecs@) =~= vars_view(self.varspecs@));
        Expression { operator: self.operator, varspecs }
    }
}

impl Clone for Part {
    fn clone(&self) -> (copy: Self)
        ensures
            copy@ == self@,
    {
        match self {
            Part::Lit(l) => Part::Lit(l.clone()),
            Part::Expression(e) => Part::Expression(e.clone()),
            Part::SegPathVar(e) => Part::SegPathVar(e.clone()),
            Part::SegRest(e) => Part::SegRest(e.clone()),
            Part::SegPathRest(e) => Part::SegPathRest(e.clone()),
        }
    }
}

/// A copy of a list of parts.
pub fn clone_parts(parts: &Vec<Part>) -> (copy: Vec<Part>)
    ensures
        parts_view(copy@) == parts_view(parts@),
{
    let mut copy: Vec<Part> = Vec::new();
    let mut i: usize = 0;
    while i < parts.len()
        invariant
            i <= parts@.len(),
            parts_view(copy@) == parts_view(parts@).take(i as int),
        decreases parts@.len() - i,
    {
        broadcast use parts_view_push;

        copy.push(parts[i].clone());
        i = i + 1;
        assert(parts_view(copy@) =~= parts_view(parts@).take(i as int));
    }
    assert(parts_view(copy@) =~= parts_view(parts@));
    copy
}

/// A copy of an optional list of parts.
pub fn clone_section(section: &Option<Vec<Part>>) -> (copy: Option<Vec<Part>>)
    ensures
        section_view(copy) == section_view(*section),
{
    match section {
        Some(parts) => Some(clone_parts(parts)),
        None => None,
    }
}

impl Clone for Parsed {
    fn clone(&self) -> (copy: Self)
        ensures
            copy@ == self@,
    {
        Parsed {
            auth: clone_section(&self.auth),
            path: clone_parts(&self.path),
            query: clone_section(&self.query),
            fragment: clone_section(&self.fragment),
            path_assoc: self.path_assoc.clone(),
            query_assoc: self.query_assoc.clone(),
        }
    }
}

impl Part {
    /// The expression of the part, if it is no literal.
    pub fn expression(&self) -> (found: Option<&Expression>)
        ensures
            match found {
                Some(e) => self@.expression() == Some(e@),
                None => self@.expression() is None,
            },
    {
        match self {
            Part::Lit(_) => None,
            Part::Expression(e) => Some(e),
            Part::SegPathVar(e) => Some(e),
            Part::SegRest(e) => Some(e),
            Part::SegPathRest(e) => Some(e),
        }
    }
}

fn push_copies(out: &mut Vec<Part>, parts: &Vec<Part>)
    ensures
        parts_view(final(out)@) == parts_view(old(out)@) + parts_view(parts@),
{
    let mut i: usize = 0;
    while i < parts.len()
        invariant
            i <= parts@.len(),
            parts_view(out@) =~= parts_view(old(out)@) + parts_view(parts@).take(i as int),
        decreases parts@.len() - i,
    {
        broadcast use parts_view_push;

        out.push(parts[i].clone());
        i = i + 1;
    }
    assert(parts_view(parts@).take(parts@.len() as int) =~= parts_view(parts@));
}

fn push_section(out: &mut Vec<Part>, section: &Option<Vec<Part>>)
    ensures
        parts_view(final(out)@) == parts_view(old(out)@) + section_parts(section_view(*section)),
{
    match section {
        Some(parts) => push_copies(out, parts),
        None => {
            assert(parts_view(out@) =~= parts_view(out@) + Seq::<SpecOfPart>::empty());
        },
    }
}

/// The variables of all the parts, in order.
pub fn all_vars(parts: &Vec<Part>) -> (vars: Vec<VarSpec>)
    ensures
        vars_view(vars@) == vars_of(parts_view(parts@)),
{
    let mut vars: Vec<VarSpec> = Vec::new();
    let ghost all = parts_view(parts@);
    let mut i: usize = 0;
    assert(all.take(0) =~= Seq::empty());
    assert(vars_view(vars@) =~= vars_of(all.take(0)));
    while i < parts.len()
        invariant
            i <= parts@.len(),
            all == parts_view(parts@),
            vars_view(vars@) == vars_of(all.take(i as int)),
        decreases parts@.len() - i,
    {
        assert(all.take(i + 1).drop_last() =~= all.take(i as int));
        assert(all.take(i + 1).last() == parts@[i as int]@);
        let ghost before = vars_view(vars@);
        match parts[i].expression() {
            Some(e) => {
                let mut j: usize = 0;
                while j < e.varspecs.len()
                    invariant
                        j <= e.varspecs@.len(),
                        vars_view(vars@) =~= before + e@.vars.take(j as int),
                    decreases e.varspecs@.len() - j,
                {
                    broadcast use vars_view_push;

                    vars.push(e.varspecs[j].clone());
                    j = j + 1;
                }
                assert(e@.vars.take(j as int) =~= e@.vars);
            },
            None => {
                assert(before + Seq::<SpecOfVar>::empty() =~= before);
            },
        }
        i = i + 1;
    }
    assert(all.take(i as int) =~= all);
    vars
}

/// The names of the variables, each where it stands first.
pub fn distinct_names(vars: &Vec<VarSpec>) -> (list: Vec<String>)
    ensures
        text::texts(list@) == distinct(names(vars_view(vars@))),
{
    let ghost all = names(vars_view(vars@));
    let mut list: Vec<String> = Vec::new();
    let mut i: usize = 0;
    assert(all.take(0) =~= Seq::empty());
    assert(text::texts(list@) =~= distinct(all.take(0)));
    while i < vars.len()
        invariant
            i <= vars@.len(),
            all == names(vars_view(vars@)),
            text::texts(list@) == distinct(all.take(i as int)),
        decreases vars@.len() - i,
    {
        broadcast use crate::text::texts_push;

        assert(all.take(i + 1).drop_last() =~= all.take(i as int));
        assert(all.take(i + 1).last() == vars@[i as int].varname@);
        if !text::holds_text(&list, &vars[i].varname) {
            list.push(vars[i].varname.clone());
        }
        i = i + 1;
    }
    assert(all.take(i as int) =~= all);
    list
}

impl Parsed {
    /// The parts of the authority and of the path.
    pub fn nonquery_parts(&self) -> (parts: Vec<Part>)
        ensures
            parts_view(parts@) == self@.before_query(),
    {
        let mut parts: Vec<Part> = Vec::new();
        push_section(&mut parts, &self.auth);
        push_copies(&mut parts, &self.path);
        assert(parts_view(parts@) =~= self@.before_query());
        parts
    }

    /// The parts of the query.
    pub fn query_parts(&self) -> (parts: Vec<Part>)
        ensures
            parts_view(parts@) == section_parts(self@.query),
    {
        let mut parts: Vec<Part> = Vec::new();
        push_section(&mut parts, &self.query);
        assert(parts_view(parts@) =~= section_parts(self@.query));
        parts
    }

    /// All the parts, in the order in which they are written.
    pub fn parts(&self) -> (parts: Vec<Part>)
        ensures
            parts_view(parts@) == self@.parts(),
    {
        let mut parts = self.nonquery_parts();
        push_section(&mut parts, &self.query);
        push_section(&mut parts, &self.fragment);
        assert(parts_view(parts@) =~= self@.parts());
        parts
    }
}

/// Why fields of a template cannot take the parameters that no other variable names.
#[derive(Debug)]
pub enum Error {
    /// No variable has the name.
    UnknownField(String),
    /// No variable of that name is exploded in the path or in the query.
    NotExploded(String),
    /// Two variables of the path would take the same parameters.
    MultiplePathFields(String, String),
    /// Two variables of the query would take the same parameters.
    MultipleQueryFields(String, String),
}

/// What an `Error` stands for.
#[verifier::ext_equal]
pub enum SpecOfError {
    UnknownField(Seq<char>),
    NotExploded(Seq<char>),
    MultiplePathFields(Seq<char>, Seq<char>),
    MultipleQueryFields(Seq<char>, Seq<char>),
}

impl View for Error {
    type V = SpecOfError;

    open spec fn view(&self) -> SpecOfError {
        match *self {
            Error::UnknownField(name) => SpecOfError::UnknownField(name@),
            Error::NotExploded(name) => SpecOfError::NotExploded(name@),
            Error::MultiplePathFields(a, b) => SpecOfError::MultiplePathFields(a@, b@),
            Error::MultipleQueryFields(a, b) => SpecOfError::MultipleQueryFields(a@, b@),
        }
    }
}

impl Clone for Error {
    fn clone(&self) -> (copy: Self)
        ensures
            copy@ == self@,
    {
        match self {
            Error::UnknownField(name) => Error::UnknownField(name.clone()),
            Error::NotExploded(name) => Error::NotExploded(name.clone()),
            Error::MultiplePathFields(a, b) => Error::MultiplePathFields(a.clone(), b.clone()),
            Error::MultipleQueryFields(a, b) => Error::MultipleQueryFields(a.clone(), b.clone()),
        }
    }
}

/// Whether a variable of that name is exploded in the parts.
pub open spec fn is_exploded(parts: Seq<SpecOfPart>, name: Seq<char>) -> bool {
    vars_of(parts).contains(SpecOfVar { name, modifier: VarMod::Explode })
}

/// Whether another name already stands where `name` should.
pub open spec fn is_taken(place: Option<Seq<char>>, name: Seq<char>) -> bool {
    place is Some && place->0 != name
}

/// The template once a field takes the parameters that no other variable names.
pub open spec fn with_assoc(template: SpecOfParsed, field: Seq<char>) -> Result<
    SpecOfParsed,
    SpecOfError,
> {
    let in_path = is_exploded(template.before_query(), field);
    let in_query = is_exploded(section_parts(template.query), field);
    if !names(vars_of(template.parts())).contains(field) {
        Err(SpecOfError::UnknownField(field))
    } else if !in_path && !in_query {
        Err(SpecOfError::NotExploded(field))
    } else if in_path && is_taken(template.path_assoc, field) {
        Err(SpecOfError::MultiplePathFields(template.path_assoc->0, field))
    } else if in_query && is_taken(template.query_assoc, field) {
        Err(SpecOfError::MultipleQueryFields(template.query_assoc->0, field))
    } else {
        Ok(
            SpecOfParsed {
                path_assoc: if in_path {
                    Some(field)
                } else {
                    template.path_assoc
                },
                query_assoc: if in_query {
                    Some(field)
                } else {
                    template.query_assoc
                },
                ..template
            },
        )
    }
}

/// The template once the fields take the parameters that no other variable names.
pub open spec fn with_assocs(template: SpecOfParsed, fields: Seq<Seq<char>>) -> Result<
    SpecOfParsed,
    SpecOfError,
>
    decreases fields.len(),
{
    if fields.len() == 0 {
        Ok(template)
    } else {
        match with_assoc(template, fields[0]) {
            Ok(next) => with_assocs(next, fields.skip(1)),
            Err(error) => Err(error),
        }
    }
}

fn exploded(vars: &Vec<VarSpec>, name: &str) -> (found: bool)
    ensures
        found == vars_view(vars@).contains(
            (SpecOfVar { name: name@, modifier: VarMod::Explode }),
        ),
{
    let mut i: usize = 0;
    while i < vars.len()
        invariant
            i <= vars@.len(),
            forall|j: int|
                0 <= j < i ==> vars_view(vars@)[j] != (SpecOfVar {
                    name: name@,
                    modifier: VarMod::Explode,
                }),
        decreases vars@.len() - i,
    {
        assert(vars_view(vars@)[i as int] == vars@[i as int]@);
        if vars[i].modifier == VarMod::Explode && text::same_text(&vars[i].varname, name) {
            return true;
        }
        i = i + 1;
    }
    false
}

fn named(vars: &Vec<VarSpec>, name: &str) -> (found: bool)
    ensures
        found == names(vars_view(vars@)).contains(name@),
{
    let mut i: usize = 0;
    while i < vars.len()
        invariant
            i <= vars@.len(),
            forall|j: int| 0 <= j < i ==> names(vars_view(vars@))[j] != name@,
        decreases vars@.len() - i,
    {
        assert(names(vars_view(vars@))[i as int] == vars@[i as int].varname@);
        if text::same_text(&vars[i].varname, name) {
            return true;
        }
        i = i + 1;
    }
    false
}

fn taken(place: &Option<String>, name: &str) -> (taken: Option<String>)
    ensures
        match taken {
            Some(other) => is_taken(text::text_of_option(*place), name@) && other@ == place->0@,
            None => !is_taken(text::text_of_option(*place), name@),
        },
{
    match place {
        Some(other) => if text::same_text(other, name) {
            None
        } else {
            Some(other.clone())
        },
        None => None,
    }
}

impl Parsed {
    /// Lets fields take the parameters that no other variable names: one in the path and one in
    /// the query at most. The template stays as it was where that cannot be.
    pub fn annotate_assocs(&mut self, fields: Vec<String>) -> (done: Result<(), Error>)
        ensures
            match done {
                Ok(_) => with_assocs(old(self)@, text::texts(fields@)) == Ok::<
                    SpecOfParsed,
                    SpecOfError,
                >(final(self)@),
                Err(error) => {
                    &&& with_assocs(old(self)@, text::texts(fields@)) == Err::<
                        SpecOfParsed,
                        SpecOfError,
                    >(error@)
                    &&& final(self)@ == old(self)@
                },
            },
    {
        let ghost before = self@;
        let all = all_vars(&self.parts());
        let in_path = all_vars(&self.nonquery_parts());
        let in_query = all_vars(&self.query_parts());
        let mut path_assoc = self.path_assoc.clone();
        let mut query_assoc = self.query_assoc.clone();
        let ghost mut current = self@;
        let ghost names_given = text::texts(fields@);
        let mut i: usize = 0;
        assert(names_given.skip(0) =~= names_given);
        while i < fields.len()
            invariant
                i <= fields@.len(),
                names_given == text::texts(fields@),
                self@ == before,
                current == (SpecOfParsed {
                    path_assoc: text::text_of_option(path_assoc),
                    query_assoc: text::text_of_option(query_assoc),
                    ..before
                }),
                vars_view(all@) == vars_of(before.parts()),
                vars_view(in_path@) == vars_of(before.before_query()),
                vars_view(in_query@) == vars_of(section_parts(before.query)),
                with_assocs(before, names_given) == with_assocs(
                    current,
                    names_given.skip(i as int),
                ),
            decreases fields@.len() - i,
        {
            assert(names_given.skip(i as int).skip(1) =~= names_given.skip(i + 1));
            assert(names_given.skip(i as int)[0] == fields@[i as int]@);
            assert(current.parts() == before.parts());
            assert(current.before_query() == before.before_query());
            let field = &fields[i];
            if !named(&all, field) {
                return Err(Error::UnknownField(field.clone()));
            }
            let is_in_path = exploded(&in_path, field);
            let is_in_query = exploded(&in_query, field);
            if !is_in_path && !is_in_query {
                return Err(Error::NotExploded(field.clone()));
            }
            if is_in_path {
                if let Some(other) = taken(&path_assoc, field) {
                    return Err(Error::MultiplePathFields(other, field.clone()));
                }
            }
            if is_in_query {
                if let Some(other) = taken(&query_assoc, field) {
                    return Err(Error::MultipleQueryFields(other, field.clone()));
                }
            }
            if is_in_path {
                path_assoc = Some(field.clone());
            }
            if is_in_query {
                query_assoc = Some(field.clone());
            }
            proof {
                current = with_assoc(current, field@)->Ok_0;
            }
            i = i + 1;
        }
        self.path_assoc = path_assoc;
        self.query_assoc = query_assoc;
        Ok(())
    }

    /// The variable that takes the parameters of the path that no other variable names.
    pub fn path_assoc_name(&self) -> (name: Option<String>)
        ensures
            text::text_of_option(name) == self@.path_assoc,
    {
        self.path_assoc.clone()
    }

    /// The variable that takes the parameters of the query that no other variable names.
    pub fn query_assoc_name(&self) -> (name: Option<String>)
        ensures
            text::text_of_option(name) == self@.query_assoc,
    {
        self.query_assoc.clone()
    }
}

} // verus!
