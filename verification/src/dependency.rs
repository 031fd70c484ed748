//! Coordinates and declared dependencies.
//!
//! A dependency is identified by its key `group:artifact:version`, followed
//! by a colon and the classifier where it has one. The scope, the exclusions
//! and the optional flag travel with it but are no part of the key.

use crate::text::{
    clone_optional, contains_text, dots_to_slashes, indent, indent_spec, join_spec, optional_text,
    swapped, lemma_split_append_field, lemma_split_join,
    lemma_split_plain, split_on, split_spec, texts,
};
use vstd::prelude::*;

verus! {

/// The context in which a dependency is used.
#[derive(Debug, Clone, Copy, PartialEq, Eq, Structural)]
pub enum DependencyScope {
    Compile,
    Runtime,
    Test,
    Provided,
    System,
}

/// A `(group, artifact)` pair that a dependency keeps out of its own expansion.
#[derive(Debug)]
pub struct Exclusion {
    pub group_id: String,
    pub artifact_id: String,
}

/// What an [`Exclusion`] stands for.
pub struct ExclusionModel {
    pub group_id: Seq<char>,
    pub artifact_id: Seq<char>,
}

impl View for Exclusion {
    type V = ExclusionModel;

    open spec fn view(&self) -> ExclusionModel {
        ExclusionModel { group_id: self.group_id@, artifact_id: self.artifact_id@ }
    }
}

impl DeepView for Exclusion {
    type V = ExclusionModel;

    open spec fn deep_view(&self) -> ExclusionModel {
        self@
    }
}

impl Clone for Exclusion {
    fn clone(&self) -> (r: Self)
        ensures
            r@ == self@,
    {
        Exclusion { group_id: self.group_id.clone(), artifact_id: self.artifact_id.clone() }
    }
}

/// A requested dependency.
#[derive(Debug)]
pub struct Dependency {
    pub group_id: String,
    pub artifact_id: String,
    pub version: String,
    pub scope: DependencyScope,
    pub classifier: Option<String>,
    pub exclusions: Vec<Exclusion>,
    pub optional: bool,
}

/// What a [`Dependency`] stands for.
pub struct DependencyModel {
    pub group_id: Seq<char>,
    pub artifact_id: Seq<char>,
    pub version: Seq<char>,
    pub scope: DependencyScope,
    pub classifier: Option<Seq<char>>,
    pub exclusions: Seq<ExclusionModel>,
    pub optional: bool,
}

/// The key `group:artifact:version`.
#[verifier::opaque]
pub open spec fn coordinate_key(group: Seq<char>, artifact: Seq<char>, version: Seq<char>) -> Seq<
    char,
> {
    group + seq![':'] + artifact + seq![':'] + version
}

/// The identity key `group:artifact:version[:classifier]`.
#[verifier::opaque]
pub open spec fn identity_key(
    group: Seq<char>,
    artifact: Seq<char>,
    version: Seq<char>,
    classifier: Option<Seq<char>>,
) -> Seq<char> {
    match classifier {
        Some(c) => coordinate_key(group, artifact, version) + seq![':'] + c,
        None => coordinate_key(group, artifact, version),
    }
}

/// The jar file name `artifact-version[-classifier].jar`.
pub open spec fn jar_name(artifact: Seq<char>, version: Seq<char>, classifier: Option<Seq<char>>) -> Seq<
    char,
> {
    match classifier {
        Some(c) => artifact + seq!['-'] + version + seq!['-'] + c + seq!['.', 'j', 'a', 'r'],
        None => artifact + seq!['-'] + version + seq!['.', 'j', 'a', 'r'],
    }
}

/// The address of the jar in the central repository:
/// `https://repo1.maven.org/maven2/`, the group with slashes for dots, the
/// artifact, the version and the jar file name, each behind a slash.
pub open spec fn central_url(
    group: Seq<char>,
    artifact: Seq<char>,
    version: Seq<char>,
    classifier: Option<Seq<char>>,
) -> Seq<char> {
    "https://repo1.maven.org/maven2/"@ + swapped(group, '.', '/') + seq!['/'] + artifact + seq!['/']
        + version + seq!['/'] + jar_name(artifact, version, classifier)
}

impl DependencyModel {
    /// The identity key of the dependency:
    /// `group:artifact:version[:classifier]`.
    pub open spec fn key(self) -> Seq<char> {
        identity_key(self.group_id, self.artifact_id, self.version, self.classifier)
    }

    /// The key `group:artifact:version` under which a lock file keeps the
    /// dependency.
    pub open spec fn lock_key(self) -> Seq<char> {
        coordinate_key(self.group_id, self.artifact_id, self.version)
    }

    /// Whether the exclusions of `self` name the group and artifact of `other`.
    pub open spec fn excludes(self, other: DependencyModel) -> bool {
        exists|i: int|
            0 <= i < self.exclusions.len() && (#[trigger] self.exclusions[i]).group_id
                == other.group_id && self.exclusions[i].artifact_id == other.artifact_id
    }

    /// No field of the key holds a colon.
    pub open spec fn plain(self) -> bool {
        &&& !self.group_id.contains(':')
        &&& !self.artifact_id.contains(':')
        &&& !self.version.contains(':')
        &&& match self.classifier {
            Some(c) => !c.contains(':'),
            None => true,
        }
    }

    /// The fields of the key, in the order in which the key holds them.
    pub open spec fn key_fields(self) -> Seq<Seq<char>> {
        match self.classifier {
            Some(c) => seq![self.group_id, self.artifact_id, self.version, c],
            None => seq![self.group_id, self.artifact_id, self.version],
        }
    }
}

/// Where no field holds a colon, the key falls at its colons into the
/// fields it was made of.
pub proof fn lemma_key_fields(d: DependencyModel)
    requires
        d.plain(),
    ensures
        split_spec(d.key(), ':') == d.key_fields(),
{
    reveal(coordinate_key);
    reveal(identity_key);
    let g = d.group_id;
    let a = d.artifact_id;
    let v = d.version;
    lemma_split_plain(g, ':');
    lemma_split_append_field(g, a, ':');
    assert(g.push(':') + a =~= g + seq![':'] + a);
    let ga = g + seq![':'] + a;
    lemma_split_append_field(ga, v, ':');
    let gav = coordinate_key(g, a, v);
    assert(ga.push(':') + v =~= gav);
    assert(split_spec(gav, ':') =~= seq![g, a, v]);
    match d.classifier {
        Some(c) => {
            lemma_split_append_field(gav, c, ':');
            assert(gav.push(':') + c =~= gav + seq![':'] + c);
            assert(split_spec(d.key(), ':') =~= seq![g, a, v, c]);
        },
        None => {},
    }
}

/// Where no field holds a colon, the key tells the dependencies apart: two
/// with the same key have the same group, artifact, version and classifier.
pub proof fn lemma_key_injective(a: DependencyModel, b: DependencyModel)
    requires
        a.plain(),
        b.plain(),
        a.key() == b.key(),
    ensures
        a.group_id == b.group_id,
        a.artifact_id == b.artifact_id,
        a.version == b.version,
        a.classifier == b.classifier,
{
    lemma_key_fields(a);
    lemma_key_fields(b);
    let fa = a.key_fields();
    let fb = b.key_fields();
    assert(fa == fb);
    assert(fa.len() == fb.len());
    assert(fa[0] == fb[0] && fa[1] == fb[1] && fa[2] == fb[2]);
    if a.classifier is Some {
        assert(fa.len() == 4);
        assert(fa[3] == fb[3]);
    }
}

impl View for Dependency {
    type V = DependencyModel;

    open spec fn view(&self) -> DependencyModel {
        DependencyModel {
            group_id: self.group_id@,
            artifact_id: self.artifact_id@,
            version: self.version@,
            scope: self.scope,
            classifier: optional_text(self.classifier),
            exclusions: self.exclusions.deep_view(),
            optional: self.optional,
        }
    }
}

impl DeepView for Dependency {
    type V = DependencyModel;

    open spec fn deep_view(&self) -> DependencyModel {
        self@
    }
}

/// Builds `group:artifact:version` from its three parts.
pub fn make_coordinate(group: &str, artifact: &str, version: &str) -> (r: String)
    ensures
        r@ == coordinate_key(group@, artifact@, version@),
{
    proof {
        reveal_strlit(":");
        reveal(coordinate_key);
    }
    assert(":"@ =~= seq![':']);
    let mut s = String::from_str(group);
    s.append(":");
    s.append(artifact);
    s.append(":");
    s.append(version);
    s
}

/// Builds `artifact-version[-classifier].jar`.
pub fn make_jar_name(artifact: &str, version: &str, classifier: &Option<String>) -> (r: String)
    ensures
        r@ == jar_name(artifact@, version@, optional_text(*classifier)),
{
    proof {
        reveal_strlit("-");
        reveal_strlit(".jar");
    }
    assert("-"@ =~= seq!['-']);
    assert(".jar"@ =~= seq!['.', 'j', 'a', 'r']);
    let mut s = String::from_str(artifact);
    s.append("-");
    s.append(version);
    match classifier {
        Some(c) => {
            s.append("-");
            s.append(c.as_str());
        },
        None => {},
    }
    s.append(".jar");
    s
}

/// Builds the address of a jar in the central repository.
pub fn make_central_url(group: &str, artifact: &str, version: &str, classifier: &Option<String>) -> (r:
    String)
    ensures
        r@ == central_url(group@, artifact@, version@, optional_text(*classifier)),
{
    proof {
        reveal_strlit("/");
    }
    assert("/"@ =~= seq!['/']);
    let mut s = String::from_str("https://repo1.maven.org/maven2/");
    let path = dots_to_slashes(group);
    s.append(path.as_str());
    s.append("/");
    s.append(artifact);
    s.append("/");
    s.append(version);
    s.append("/");
    let name = make_jar_name(artifact, version, classifier);
    s.append(name.as_str());
    s
}

/// A copy of a list of exclusions.
pub fn clone_exclusions(list: &Vec<Exclusion>) -> (r: Vec<Exclusion>)
    ensures
        r.deep_view() == list.deep_view(),
{
    let mut out: Vec<Exclusion> = Vec::new();
    let mut i: usize = 0;
    while i < list.len()
        invariant
            i <= list.len(),
            out.len() == i,
            forall|j: int| 0 <= j < i ==> out[j]@ == list[j]@,
        decreases list.len() - i,
    {
        out.push(list[i].clone());
        i = i + 1;
    }
    assert(out.deep_view() =~= list.deep_view());
    out
}

impl Clone for Dependency {
    fn clone(&self) -> (r: Self)
        ensures
            r@ == self@,
    {
        Dependency {
            group_id: self.group_id.clone(),
            artifact_id: self.artifact_id.clone(),
            version: self.version.clone(),
            scope: self.scope,
            classifier: clone_optional(&self.classifier),
            exclusions: clone_exclusions(&self.exclusions),
            optional: self.optional,
        }
    }
}

impl Dependency {
    /// A compile-scope, non-optional dependency without classifier or exclusions.
    pub fn new(group_id: &str, artifact_id: &str, version: &str) -> (r: Self)
        ensures
            r@ == (DependencyModel {
                group_id: group_id@,
                artifact_id: artifact_id@,
                version: version@,
                scope: DependencyScope::Compile,
                classifier: None,
                exclusions: Seq::empty(),
                optional: false,
            }),
    {
        let r = Dependency {
            group_id: String::from_str(group_id),
            artifact_id: String::from_str(artifact_id),
            version: String::from_str(version),
            scope: DependencyScope::Compile,
            classifier: None,
            exclusions: Vec::new(),
            optional: false,
        };
        assert(r.exclusions.deep_view() =~= Seq::empty());
        r
    }

    /// The same dependency in another scope.
    pub fn with_scope(self, scope: DependencyScope) -> (r: Self)
        ensures
            r@ == (DependencyModel { scope: scope, ..self@ }),
    {
        let mut d = self;
        d.scope = scope;
        d
    }

    /// The same dependency with a classifier.
    pub fn with_classifier(self, classifier: &str) -> (r: Self)
        ensures
            r@ == (DependencyModel { classifier: Some(classifier@), ..self@ }),
    {
        let mut d = self;
        d.classifier = Some(String::from_str(classifier));
        d
    }

    /// The same dependency with its exclusions replaced.
    pub fn with_exclusions(self, exclusions: Vec<Exclusion>) -> (r: Self)
        ensures
            r@ == (DependencyModel { exclusions: exclusions.deep_view(), ..self@ }),
    {
        let mut d = self;
        d.exclusions = exclusions;
        d
    }

    /// The same dependency with its optional flag set to `optional`.
    pub fn optional(self, optional: bool) -> (r: Self)
        ensures
            r@ == (DependencyModel { optional: optional, ..self@ }),
    {
        let mut d = self;
        d.optional = optional;
        d
    }

    /// The identity key `group:artifact:version[:classifier]`.
    pub fn coordinate(&self) -> (r: String)
        ensures
            r@ == self@.key(),
    {
        proof {
            reveal_strlit(":");
            reveal(identity_key);
        }
        assert(":"@ =~= seq![':']);
        let mut key = make_coordinate(
            self.group_id.as_str(),
            self.artifact_id.as_str(),
            self.version.as_str(),
        );
        match &self.classifier {
            Some(c) => {
                key.append(":");
                key.append(c.as_str());
            },
            None => {},
        }
        key
    }

    /// The key `group:artifact:version` under which a lock file keeps the
    /// dependency.
    pub fn lock_coordinate(&self) -> (r: String)
        ensures
            r@ == self@.lock_key(),
    {
        make_coordinate(self.group_id.as_str(), self.artifact_id.as_str(), self.version.as_str())
    }

    /// The jar file name of the artifact.
    pub fn filename(&self) -> (r: String)
        ensures
            r@ == jar_name(self@.artifact_id, self@.version, self@.classifier),
    {
        make_jar_name(self.artifact_id.as_str(), self.version.as_str(), &self.classifier)
    }

    /// Whether the exclusions of `self` name the group and artifact of `other`.
    pub fn excludes(&self, other: &Dependency) -> (r: bool)
        ensures
            r == self@.excludes(other@),
    {
        let mut i: usize = 0;
        while i < self.exclusions.len()
            invariant
                i <= self.exclusions.len(),
                forall|j: int|
                    0 <= j < i ==> !((#[trigger] self@.exclusions[j]).group_id == other@.group_id
                        && self@.exclusions[j].artifact_id == other@.artifact_id),
            decreases self.exclusions.len() - i,
        {
            let e = &self.exclusions[i];
            assert(e@ == self@.exclusions[i as int]);
            if e.group_id == other.group_id && e.artifact_id == other.artifact_id {
                return true;
            }
            i = i + 1;
        }
        false
    }
}

/// A parsed coordinate text: group, artifact and, where given, a version.
#[derive(Debug)]
pub struct Coordinate {
    pub group_id: String,
    pub artifact_id: String,
    pub version: Option<String>,
}

/// What a [`Coordinate`] stands for.
pub struct CoordinateModel {
    pub group_id: Seq<char>,
    pub artifact_id: Seq<char>,
    pub version: Option<Seq<char>>,
}

impl View for Coordinate {
    type V = CoordinateModel;

    open spec fn view(&self) -> CoordinateModel {
        CoordinateModel {
            group_id: self.group_id@,
            artifact_id: self.artifact_id@,
            version: optional_text(self.version),
        }
    }
}

impl CoordinateModel {
    /// A field is usable when it is not empty and holds no colon.
    pub open spec fn field_ok(field: Seq<char>) -> bool {
        field.len() > 0 && !field.contains(':')
    }

    /// Every field that is present is usable.
    pub open spec fn well_formed(self) -> bool {
        &&& Self::field_ok(self.group_id)
        &&& Self::field_ok(self.artifact_id)
        &&& match self.version {
            Some(v) => Self::field_ok(v),
            None => true,
        }
    }

    /// The text `group:artifact[:version]`.
    pub open spec fn text(self) -> Seq<char> {
        match self.version {
            Some(v) => coordinate_key(self.group_id, self.artifact_id, v),
            None => self.group_id + seq![':'] + self.artifact_id,
        }
    }
}

/// Why a text was not accepted.
#[derive(Debug)]
pub enum ParseError {
    /// The text is not `group:artifact` or `group:artifact:version` with
    /// non-empty fields. Carries the text.
    InvalidCoordinate(String),
}

impl ParseError {
    /// The rejected text.
    pub open spec fn input(self) -> Seq<char> {
        match self {
            ParseError::InvalidCoordinate(s) => s@,
        }
    }
}

/// The coordinate that a text denotes: two or three colon-delimited fields,
/// none of them empty. Any other text denotes none.
pub open spec fn parse_spec(s: Seq<char>) -> Option<CoordinateModel> {
    let fields = split_spec(s, ':');
    if fields.len() == 2 && fields[0].len() > 0 && fields[1].len() > 0 {
        Some(CoordinateModel { group_id: fields[0], artifact_id: fields[1], version: None })
    } else if fields.len() == 3 && fields[0].len() > 0 && fields[1].len() > 0 && fields[2].len()
        > 0 {
        Some(
            CoordinateModel { group_id: fields[0], artifact_id: fields[1], version: Some(fields[2]) },
        )
    } else {
        None
    }
}

/// Parses `group:artifact[:version]`.
pub fn parse_dependency_coordinate(coordinate: &str) -> (r: Result<Coordinate, ParseError>)
    ensures
        match r {
            Ok(c) => parse_spec(coordinate@) == Some(c@),
            Err(e) => parse_spec(coordinate@) is None && e.input() == coordinate@,
        },
{
    let mut parts = split_on(coordinate, ':');
    let ghost fields = split_spec(coordinate@, ':');
    assert(forall|i: int| 0 <= i < parts@.len() ==> parts@[i]@ == texts(parts@)[i]);
    if parts.len() == 2 {
        if parts[0].as_str().unicode_len() > 0 && parts[1].as_str().unicode_len() > 0 {
            let artifact_id = parts.pop().unwrap();
            let group_id = parts.pop().unwrap();
            return Ok(Coordinate { group_id, artifact_id, version: None });
        }
    } else if parts.len() == 3 {
        if parts[0].as_str().unicode_len() > 0 && parts[1].as_str().unicode_len() > 0
            && parts[2].as_str().unicode_len() > 0 {
            let version = parts.pop().unwrap();
            let artifact_id = parts.pop().unwrap();
            let group_id = parts.pop().unwrap();
            return Ok(Coordinate { group_id, artifact_id, version: Some(version) });
        }
    }
    Err(ParseError::InvalidCoordinate(String::from_str(coordinate)))
}

/// Parsing undoes writing: the text of a well-formed coordinate parses to
/// that coordinate.
pub proof fn lemma_parse_text(c: CoordinateModel)
    requires
        c.well_formed(),
    ensures
        parse_spec(c.text()) == Some(c),
{
    reveal(coordinate_key);
    let g = c.group_id;
    let a = c.artifact_id;
    lemma_split_plain(g, ':');
    lemma_split_append_field(g, a, ':');
    assert(g.push(':') + a =~= g + seq![':'] + a);
    assert(split_spec(g + seq![':'] + a, ':') =~= seq![g, a]);
    match c.version {
        Some(v) => {
            let ga = g + seq![':'] + a;
            lemma_split_append_field(ga, v, ':');
            assert(ga.push(':') + v =~= coordinate_key(g, a, v));
            assert(split_spec(c.text(), ':') =~= seq![g, a, v]);
        },
        None => {},
    }
}

/// A text parses to a coordinate only if it is that coordinate written out,
/// and the coordinate is then well formed.
pub proof fn lemma_parse_sound(s: Seq<char>)
    requires
        parse_spec(s) is Some,
    ensures
        parse_spec(s)->0.well_formed(),
        parse_spec(s)->0.text() == s,
{
    reveal(coordinate_key);
    let fields = split_spec(s, ':');
    lemma_split_join(s, ':');
    let c = parse_spec(s)->0;
    assert(!fields[0].contains(':'));
    assert(!fields[1].contains(':'));
    let one = seq![fields[0]];
    assert(join_spec(one, ':') == fields[0]);
    if fields.len() == 2 {
        assert(fields.drop_last() =~= one);
        assert(join_spec(fields, ':') =~= fields[0].push(':') + fields[1]);
        assert(c.text() =~= fields[0].push(':') + fields[1]);
    } else {
        assert(!fields[2].contains(':'));
        let two = seq![fields[0], fields[1]];
        assert(two.drop_last() =~= one);
        assert(join_spec(two, ':') =~= fields[0].push(':') + fields[1]);
        assert(fields.drop_last() =~= two);
        assert(join_spec(fields, ':') =~= (fields[0].push(':') + fields[1]).push(':') + fields[2]);
        assert(c.text() =~= (fields[0].push(':') + fields[1]).push(':') + fields[2]);
    }
}

/// A node of a dependency tree, `depth` levels below its root.
#[derive(Debug)]
pub struct DependencyNode {
    pub dependency: Dependency,
    pub children: Vec<DependencyNode>,
    pub depth: usize,
}

/// The lines that show a node and all below it: one line per node, parents
/// before children, each indented by two blanks per level of depth.
pub open spec fn node_lines(node: DependencyNode) -> Seq<Seq<char>>
    decreases node, 1nat,
{
    seq![indent_spec(node.depth as nat) + node.dependency@.key()] + forest_lines(node.children@)
}

/// The lines of several trees, one tree after the other.
pub open spec fn forest_lines(nodes: Seq<DependencyNode>) -> Seq<Seq<char>>
    decreases nodes, 0nat,
{
    if nodes.len() == 0 {
        Seq::empty()
    } else {
        forest_lines(nodes.drop_last()) + node_lines(nodes.last())
    }
}

impl DependencyNode {
    /// A node without children.
    pub fn new(dependency: Dependency, depth: usize) -> (r: Self)
        ensures
            r.dependency == dependency,
            r.children@.len() == 0,
            r.depth == depth,
    {
        DependencyNode { dependency, children: Vec::new(), depth }
    }

    /// Adds `child` behind the children already there.
    pub fn add_child(&mut self, child: DependencyNode)
        ensures
            final(self).children@ == old(self).children@.push(child),
            final(self).dependency == old(self).dependency,
            final(self).depth == old(self).depth,
    {
        self.children.push(child);
    }

    /// The lines of the tree below and including this node.
    pub fn tree_lines(&self) -> (r: Vec<String>)
        ensures
            texts(r@) == node_lines(*self),
        decreases self,
    {
        let mut line = indent(self.depth);
        let key = self.dependency.coordinate();
        line.append(key.as_str());
        let mut out: Vec<String> = Vec::new();
        out.push(line);
        let mut i: usize = 0;
        assert(self.children@.take(0) =~= Seq::empty());
        assert(texts(out@) =~= seq![indent_spec(self.depth as nat) + self.dependency@.key()]
            + forest_lines(self.children@.take(0)));
        while i < self.children.len()
            invariant
                i <= self.children.len(),
                texts(out@) == seq![indent_spec(self.depth as nat) + self.dependency@.key()]
                    + forest_lines(self.children@.take(i as int)),
            decreases self.children.len() - i,
        {
            let ghost before = texts(out@);
            let mut sub = self.children[i].tree_lines();
            let ghost sub_lines = texts(sub@);
            out.append(&mut sub);
            proof {
                let next = self.children@.take(i + 1);
                assert(next.drop_last() =~= self.children@.take(i as int));
                assert(next.last() == self.children@[i as int]);
                assert(texts(out@) =~= before + sub_lines);
            }
            i = i + 1;
        }
        assert(self.children@.take(self.children.len() as int) =~= self.children@);
        out
    }
}

/// The dependencies of `deps` without those whose key an earlier one has.
pub open spec fn first_occurrences(deps: Seq<DependencyModel>) -> Seq<DependencyModel>
    decreases deps.len(),
{
    if deps.len() == 0 {
        Seq::empty()
    } else {
        let init = first_occurrences(deps.drop_last());
        if exists|j: int| 0 <= j < deps.len() - 1 && (#[trigger] deps[j]).key() == deps.last().key() {
            init
        } else {
            init.push(deps.last())
        }
    }
}

/// The keys of a list of dependencies, in order.
pub open spec fn keys_of(deps: Seq<DependencyModel>) -> Seq<Seq<char>> {
    Seq::new(deps.len(), |i: int| deps[i].key())
}

/// One root node, at depth 0 and without children, for each distinct
/// coordinate of `dependencies`, in the order of first occurrence.
pub fn resolve_dependencies(dependencies: &[Dependency]) -> (r: Vec<DependencyNode>)
    ensures
        r@.len() == first_occurrences(dependencies.deep_view()).len(),
        forall|i: int|
            0 <= i < r@.len() ==> {
                &&& (#[trigger] r@[i]).dependency@ == first_occurrences(dependencies.deep_view())[i]
                &&& r@[i].children@.len() == 0
                &&& r@[i].depth == 0
            },
{
    let mut resolved: Vec<DependencyNode> = Vec::new();
    let mut visited: Vec<String> = Vec::new();
    let ghost all = dependencies.deep_view();
    let mut i: usize = 0;
    assert(all.take(0) =~= Seq::empty());
    while i < dependencies.len()
        invariant
            i <= dependencies.len(),
            all == dependencies.deep_view(),
            forall|k: Seq<char>|
                texts(visited@).contains(k) <==> keys_of(all.take(i as int)).contains(k),
            resolved@.len() == first_occurrences(all.take(i as int)).len(),
            forall|j: int|
                0 <= j < resolved@.len() ==> {
                    &&& (#[trigger] resolved@[j]).dependency@ == first_occurrences(
                        all.take(i as int),
                    )[j]
                    &&& resolved@[j].children@.len() == 0
                    &&& resolved@[j].depth == 0
                },
        decreases dependencies.len() - i,
    {
        let dep = &dependencies[i];
        let key = dep.coordinate();
        let ghost seen = all.take(i as int);
        let ghost next = all.take(i + 1);
        let ghost marks = texts(visited@);
        proof {
            assert(dep@ == all[i as int]);
            assert(next.drop_last() =~= seen);
            assert(next.last() == dep@);
            assert(keys_of(next) =~= keys_of(seen).push(key@));
            if keys_of(seen).contains(key@) {
                let j = choose|j: int| 0 <= j < seen.len() && keys_of(seen)[j] == key@;
                assert(next[j].key() == next.last().key());
            } else {
                if exists|j: int|
                    0 <= j < next.len() - 1 && (#[trigger] next[j]).key() == next.last().key() {
                    let j = choose|j: int|
                        0 <= j < next.len() - 1 && (#[trigger] next[j]).key() == next.last().key();
                    assert(keys_of(seen)[j] == key@);
                }
            }
        }
        if !contains_text(&visited, key.as_str()) {
            let node = build_dependency_tree(dep, &mut visited, 0);
            resolved.push(node);
        }
        proof {
            assert forall|k: Seq<char>| texts(visited@).contains(k) <==> keys_of(next).contains(
                k,
            ) by {
                if texts(visited@).contains(k) {
                    let j = choose|j: int| 0 <= j < visited@.len() && texts(visited@)[j] == k;
                    if j < marks.len() {
                        assert(marks[j] == k);
                        assert(marks.contains(k));
                        assert(keys_of(seen).contains(k));
                        let m = choose|m: int| 0 <= m < seen.len() && keys_of(seen)[m] == k;
                        assert(keys_of(next)[m] == k);
                    } else {
                        assert(keys_of(next)[i as int] == k);
                    }
                }
                if keys_of(next).contains(k) {
                    let m = choose|m: int| 0 <= m < next.len() && keys_of(next)[m] == k;
                    if m < i {
                        assert(keys_of(seen)[m] == k);
                        assert(marks.contains(k));
                        let j = choose|j: int| 0 <= j < marks.len() && marks[j] == k;
                        assert(texts(visited@)[j] == k);
                    } else {
                        if marks.contains(key@) {
                            let j = choose|j: int| 0 <= j < marks.len() && marks[j] == key@;
                            assert(texts(visited@)[j] == k);
                        } else {
                            assert(texts(visited@)[visited@.len() - 1] == k);
                        }
                    }
                }
            }
        }
        i = i + 1;
    }
    assert(all.take(dependencies.len() as int) =~= all);
    resolved
}

/// Marks `dependency` as visited and makes its node.
fn build_dependency_tree(dependency: &Dependency, visited: &mut Vec<String>, depth: usize) -> (r:
    DependencyNode)
    ensures
        final(visited)@.len() == old(visited)@.len() + 1,
        texts(final(visited)@) == texts(old(visited)@).push(dependency@.key()),
        r.dependency@ == dependency@,
        r.children@.len() == 0,
        r.depth == depth,
{
    let ghost before = texts(visited@);
    visited.push(dependency.coordinate());
    assert(texts(visited@) =~= before.push(dependency@.key()));
    DependencyNode::new(dependency.clone(), depth)
}

/// The number of nodes in the trees, or the largest number there is where
/// the nodes are more.
pub fn count_total_dependencies(nodes: &Vec<DependencyNode>) -> (r: usize)
    ensures
        r == if forest_lines(nodes@).len() <= usize::MAX {
            forest_lines(nodes@).len() as usize
        } else {
            usize::MAX
        },
    decreases nodes,
{
    let mut count: usize = 0;
    let mut i: usize = 0;
    assert(nodes@.take(0) =~= Seq::empty());
    while i < nodes.len()
        invariant
            i <= nodes.len(),
            count == if forest_lines(nodes@.take(i as int)).len() <= usize::MAX {
                forest_lines(nodes@.take(i as int)).len() as usize
            } else {
                usize::MAX
            },
        decreases nodes.len() - i,
    {
        proof {
            let next = nodes@.take(i + 1);
            assert(next.drop_last() =~= nodes@.take(i as int));
            assert(next.last() == nodes@[i as int]);
            assert(forest_lines(next) == forest_lines(nodes@.take(i as int)) + node_lines(
                nodes@[i as int],
            ));
            assert(node_lines(nodes@[i as int]).len() == 1 + forest_lines(
                nodes@[i as int].children@,
            ).len());
        }
        let below = count_total_dependencies(&nodes[i].children);
        let here = if below < usize::MAX {
            below + 1
        } else {
            usize::MAX
        };
        count = if count > usize::MAX - here {
            usize::MAX
        } else {
            count + here
        };
        i = i + 1;
    }
    assert(nodes@.take(nodes.len() as int) =~= nodes@);
    count
}

} // verus!
