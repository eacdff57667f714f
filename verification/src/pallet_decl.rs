//! Declarations of the modules that a runtime is made of.
//!
//! A declaration such as `type Council = pallet_collective::<Instance1>` names a module
//! and the path that it comes from, and may pick an instance of it. Syntax is held as
//! the text of its tokens, as far as it is not looked into.

use proc_macro2::Span;
use vstd::prelude::*;

verus! {

/// A place in the source.
#[verifier::external_type_specification]
#[verifier::external_body]
pub struct ExSpan(proc_macro2::Span);

/// What is wrong with a declaration, in words.
#[derive(Clone, Debug, PartialEq, Eq)]
pub struct SyntaxError(pub String);

/// An identifier.
#[derive(Debug, PartialEq, Eq)]
pub struct Ident {
    /// The name, without a mark.
    pub name: String,
    /// Whether the mark of a raw identifier, `r#`, stands before the name.
    pub raw: bool,
}

/// A segment of a path in the place of a generic argument.
#[derive(Debug, PartialEq, Eq)]
pub struct ArgumentSegment {
    /// The name.
    pub ident: Ident,
    /// The arguments with their brackets, if there are brackets.
    pub arguments: Option<String>,
}

/// A path in the place of a generic argument.
#[derive(Debug, PartialEq, Eq)]
pub struct ArgumentPath {
    /// What the path is qualified by, as in `<Vec<T>>::Item`.
    pub qself: Option<String>,
    /// Whether the path starts with `::`.
    pub leading_colon: bool,
    /// The segments.
    pub segments: Vec<ArgumentSegment>,
}

/// A generic argument of a path segment.
#[derive(Debug, PartialEq, Eq)]
pub enum GenericArgument {
    /// A type that is a path.
    TypePath(ArgumentPath),
    /// Anything else: another type, a lifetime, a constant, a binding.
    Other(String),
}

/// The arguments of a path segment.
#[derive(Debug, PartialEq, Eq)]
pub enum PathArguments {
    /// No arguments.
    Absent,
    /// Arguments in angle brackets, with `::` before these or not.
    AngleBracketed {
        turbofish: bool,
        args: Vec<GenericArgument>,
    },
    /// Arguments in round brackets, with what they return.
    Parenthesized(String),
}

/// A segment of a path.
#[derive(Debug, PartialEq, Eq)]
pub struct PathSegment {
    /// The name.
    pub ident: Ident,
    /// The arguments.
    pub arguments: PathArguments,
}

/// A path.
#[derive(Debug, PartialEq, Eq)]
pub struct Path {
    /// Whether the path starts with `::`.
    pub leading_colon: bool,
    /// The segments.
    pub segments: Vec<PathSegment>,
}

/// A path in the place of a type.
#[derive(Clone, Debug, PartialEq, Eq)]
pub struct TypePath {
    /// What the path is qualified by, as in `<Vec<T>>::Item`.
    pub qself: Option<String>,
    /// The path.
    pub path: Path,
}

/// A type definition.
#[derive(Clone, Debug, PartialEq, Eq)]
pub struct ItemType {
    /// The attributes.
    pub attrs: Vec<String>,
    /// The name.
    pub ident: Ident,
}

/// What an [`Ident`] holds.
pub struct IdentView {
    pub name: Seq<char>,
    pub raw: bool,
}

impl View for Ident {
    type V = IdentView;

    open spec fn view(&self) -> IdentView {
        IdentView { name: self.name@, raw: self.raw }
    }
}

/// A text, if there is one.
pub open spec fn text_view(text: Option<String>) -> Option<Seq<char>> {
    match text {
        Some(text) => Some(text@),
        None => None,
    }
}

/// What an [`ArgumentSegment`] holds.
pub struct ArgumentSegmentView {
    pub ident: IdentView,
    pub arguments: Option<Seq<char>>,
}

impl View for ArgumentSegment {
    type V = ArgumentSegmentView;

    open spec fn view(&self) -> ArgumentSegmentView {
        ArgumentSegmentView { ident: self.ident@, arguments: text_view(self.arguments) }
    }
}

/// What an [`ArgumentPath`] holds.
pub struct ArgumentPathView {
    pub qself: Option<Seq<char>>,
    pub leading_colon: bool,
    pub segments: Seq<ArgumentSegmentView>,
}

impl View for ArgumentPath {
    type V = ArgumentPathView;

    open spec fn view(&self) -> ArgumentPathView {
        ArgumentPathView {
            qself: text_view(self.qself),
            leading_colon: self.leading_colon,
            segments: self.segments@.map_values(|s: ArgumentSegment| s@),
        }
    }
}

impl ArgumentPathView {
    /// The identifier that the path consists of, if it is nothing but an identifier that
    /// is not marked as raw.
    pub open spec fn single_ident(self) -> Option<IdentView> {
        if self.qself is None && !self.leading_colon && self.segments.len() == 1
            && self.segments[0].arguments is None && !self.segments[0].ident.raw {
            Some(self.segments[0].ident)
        } else {
            None
        }
    }
}

/// What a [`GenericArgument`] holds.
pub enum GenericArgumentView {
    TypePath(ArgumentPathView),
    Other(Seq<char>),
}

impl View for GenericArgument {
    type V = GenericArgumentView;

    open spec fn view(&self) -> GenericArgumentView {
        match *self {
            GenericArgument::TypePath(path) => GenericArgumentView::TypePath(path@),
            GenericArgument::Other(text) => GenericArgumentView::Other(text@),
        }
    }
}

/// What a [`PathArguments`] holds.
pub enum PathArgumentsView {
    Absent,
    AngleBracketed { turbofish: bool, args: Seq<GenericArgumentView> },
    Parenthesized(Seq<char>),
}

impl View for PathArguments {
    type V = PathArgumentsView;

    open spec fn view(&self) -> PathArgumentsView {
        match *self {
            PathArguments::Absent => PathArgumentsView::Absent,
            PathArguments::AngleBracketed { turbofish, args } => PathArgumentsView::AngleBracketed {
                turbofish,
                args: args@.map_values(|a: GenericArgument| a@),
            },
            PathArguments::Parenthesized(text) => PathArgumentsView::Parenthesized(text@),
        }
    }
}

/// What a [`PathSegment`] holds.
pub struct PathSegmentView {
    pub ident: IdentView,
    pub arguments: PathArgumentsView,
}

impl View for PathSegment {
    type V = PathSegmentView;

    open spec fn view(&self) -> PathSegmentView {
        PathSegmentView { ident: self.ident@, arguments: self.arguments@ }
    }
}

/// What a [`Path`] holds.
pub struct PathView {
    pub leading_colon: bool,
    pub segments: Seq<PathSegmentView>,
}

impl View for Path {
    type V = PathView;

    open spec fn view(&self) -> PathView {
        PathView {
            leading_colon: self.leading_colon,
            segments: self.segments@.map_values(|s: PathSegment| s@),
        }
    }
}

impl PathArgumentsView {
    /// Whether there is no argument. A pair of angle brackets may hold none.
    pub open spec fn is_empty(self) -> bool {
        match self {
            PathArgumentsView::Absent => true,
            PathArgumentsView::AngleBracketed { turbofish, args } => args.len() == 0,
            PathArgumentsView::Parenthesized(_) => false,
        }
    }

    /// The first argument, if it is in angle brackets and a type that is a path.
    pub open spec fn first_type_path(self) -> Option<ArgumentPathView> {
        match self {
            PathArgumentsView::AngleBracketed { turbofish, args } => if args.len() > 0 {
                match args[0] {
                    GenericArgumentView::TypePath(path) => Some(path),
                    GenericArgumentView::Other(_) => None,
                }
            } else {
                None
            },
            _ => None,
        }
    }
}

/// Where the first segment with arguments stands; past the end if there is none.
pub open spec fn first_with_arguments(segments: Seq<PathSegmentView>) -> int
    decreases segments.len(),
{
    if segments.len() == 0 || !segments[0].arguments.is_empty() {
        0
    } else {
        1 + first_with_arguments(segments.drop_first())
    }
}

impl PathView {
    /// The type that picks an instance: the first argument of the first segment with
    /// arguments, if it is a type that is a path.
    pub open spec fn instance_type(self) -> Option<ArgumentPathView> {
        let at = first_with_arguments(self.segments);
        if at < self.segments.len() {
            self.segments[at].arguments.first_type_path()
        } else {
            None
        }
    }

    /// The path without the arguments of the first segment that has some.
    pub open spec fn without_instance(self) -> PathView {
        let at = first_with_arguments(self.segments);
        PathView {
            leading_colon: self.leading_colon,
            segments: self.segments.update(
                at,
                PathSegmentView {
                    ident: self.segments[at].ident,
                    arguments: PathArgumentsView::Absent,
                },
            ),
        }
    }
}

/// The declaration of a pallet.
#[derive(Clone, Debug, PartialEq, Eq)]
pub struct PalletDeclaration {
    /// The name of the pallet, e.g. `System` in `System: frame_system`.
    pub name: Ident,
    /// Optional attributes tagged right above a pallet declaration.
    pub attrs: Vec<String>,
    /// The path of the pallet, e.g. `frame_system` in `System: frame_system`.
    pub path: Path,
    /// The instance of the pallet, e.g. `Instance1` in
    /// `Council: pallet_collective::<Instance1>`.
    pub instance: Option<Ident>,
}

/// What a [`PalletDeclaration`] holds.
pub struct PalletDeclarationView {
    pub name: IdentView,
    pub attrs: Seq<Seq<char>>,
    pub path: PathView,
    pub instance: Option<IdentView>,
}

/// The texts of a list.
pub open spec fn texts(list: Seq<String>) -> Seq<Seq<char>> {
    list.map_values(|s: String| s@)
}

impl View for PalletDeclaration {
    type V = PalletDeclarationView;

    open spec fn view(&self) -> PalletDeclarationView {
        PalletDeclarationView {
            name: self.name@,
            attrs: texts(self.attrs@),
            path: self.path@,
            instance: match self.instance {
                Some(instance) => Some(instance@),
                None => None,
            },
        }
    }
}

/// The instance that a path picks, if it picks one.
pub open spec fn picked_instance(path: PathView) -> Option<IdentView> {
    match path.instance_type() {
        Some(argument) => argument.single_ident(),
        None => None,
    }
}

/// Whether a path picks no instance, or one that is an identifier.
pub open spec fn picks_ident(path: PathView) -> bool {
    path.instance_type() is Some ==> picked_instance(path) is Some
}

/// What is declared by a type definition and a path, where `instance` is picked.
pub open spec fn declared(
    name: IdentView,
    attrs: Seq<Seq<char>>,
    path: PathView,
    instance: Option<IdentView>,
) -> PalletDeclarationView {
    PalletDeclarationView {
        name,
        attrs,
        path: match instance {
            Some(_) => path.without_instance(),
            None => path,
        },
        instance,
    }
}

impl Clone for Ident {
    fn clone(&self) -> (r: Ident)
        ensures
            r@ == self@,
    {
        Ident { name: self.name.clone(), raw: self.raw }
    }
}

/// Copies a text, if there is one.
fn clone_text(text: &Option<String>) -> (r: Option<String>)
    ensures
        text_view(r) == text_view(*text),
{
    match text {
        Some(text) => Some(text.clone()),
        None => None,
    }
}

impl Clone for ArgumentSegment {
    fn clone(&self) -> (r: ArgumentSegment)
        ensures
            r@ == self@,
    {
        ArgumentSegment {
            ident: self.ident.clone(),
            arguments: clone_text(&self.arguments),
        }
    }
}

impl Clone for ArgumentPath {
    fn clone(&self) -> (r: ArgumentPath)
        ensures
            r@ == self@,
    {
        let ghost views = self@.segments;
        let mut segments: Vec<ArgumentSegment> = Vec::new();
        let mut k: usize = 0;
        while k < self.segments.len()
            invariant
                k <= self.segments@.len(),
                views == self@.segments,
                segments@.map_values(|s: ArgumentSegment| s@) =~= views.take(k as int),
            decreases self.segments@.len() - k,
        {
            let ghost before = segments@.map_values(|s: ArgumentSegment| s@);
            let segment = self.segments[k].clone();
            segments.push(segment);
            assert(segments@.map_values(|s: ArgumentSegment| s@) =~= before.push(segment@));
            assert(views.take(k + 1) =~= views.take(k as int).push(views[k as int]));
            k = k + 1;
        }
        assert(views.take(k as int) =~= views);
        ArgumentPath {
            qself: clone_text(&self.qself),
            leading_colon: self.leading_colon,
            segments,
        }
    }
}

impl ArgumentPath {
    /// The identifier that the path consists of, if it is nothing but an identifier that
    /// is not marked as raw.
    pub fn single_ident(&self) -> (r: Option<&Ident>)
        ensures
            self@.single_ident() == match r {
                Some(ident) => Some(ident@),
                None => None,
            },
            r is Some <==> is_one_name(*self),
            r matches Some(ident) ==> *ident == self.segments@[0].ident,
    {
        if self.qself.is_none() && !self.leading_colon && self.segments.len() == 1
            && self.segments[0].arguments.is_none() && !self.segments[0].ident.raw {
            assert(self@.segments[0] == self.segments@[0]@);
            Some(&self.segments[0].ident)
        } else {
            assert(self.segments@.len() == 1 ==> self@.segments[0] == self.segments@[0]@);
            None
        }
    }
}

impl Clone for GenericArgument {
    fn clone(&self) -> (r: GenericArgument)
        ensures
            r@ == self@,
    {
        match self {
            GenericArgument::TypePath(path) => GenericArgument::TypePath(path.clone()),
            GenericArgument::Other(text) => GenericArgument::Other(text.clone()),
        }
    }
}

impl Clone for PathArguments {
    fn clone(&self) -> (r: PathArguments)
        ensures
            r@ == self@,
    {
        match self {
            PathArguments::Absent => PathArguments::Absent,
            PathArguments::AngleBracketed { turbofish, args } => {
                let ghost views = args@.map_values(|a: GenericArgument| a@);
                let mut copy: Vec<GenericArgument> = Vec::new();
                let mut k: usize = 0;
                while k < args.len()
                    invariant
                        k <= args@.len(),
                        views == args@.map_values(|a: GenericArgument| a@),
                        copy@.map_values(|a: GenericArgument| a@) =~= views.take(k as int),
                    decreases args@.len() - k,
                {
                    let ghost before = copy@.map_values(|a: GenericArgument| a@);
                    let arg = args[k].clone();
                    copy.push(arg);
                    assert(copy@.map_values(|a: GenericArgument| a@) =~= before.push(arg@));
                    assert(views.take(k + 1) =~= views.take(k as int).push(views[k as int]));
                    k = k + 1;
                }
                assert(views.take(k as int) =~= views);
                PathArguments::AngleBracketed { turbofish: *turbofish, args: copy }
            },
            PathArguments::Parenthesized(text) => PathArguments::Parenthesized(text.clone()),
        }
    }
}

impl Clone for PathSegment {
    fn clone(&self) -> (r: PathSegment)
        ensures
            r@ == self@,
    {
        PathSegment { ident: self.ident.clone(), arguments: self.arguments.clone() }
    }
}

impl Clone for Path {
    fn clone(&self) -> (r: Path)
        ensures
            r@ == self@,
    {
        let ghost views = self@.segments;
        let mut segments: Vec<PathSegment> = Vec::new();
        let mut k: usize = 0;
        while k < self.segments.len()
            invariant
                k <= self.segments@.len(),
                views == self@.segments,
                segments@.map_values(|s: PathSegment| s@) =~= views.take(k as int),
            decreases self.segments@.len() - k,
        {
            let ghost before = segments@.map_values(|s: PathSegment| s@);
            let segment = self.segments[k].clone();
            segments.push(segment);
            assert(segments@.map_values(|s: PathSegment| s@) =~= before.push(segment@));
            assert(views.take(k + 1) =~= views.take(k as int).push(views[k as int]));
            k = k + 1;
        }
        assert(views.take(k as int) =~= views);
        Path { leading_colon: self.leading_colon, segments }
    }
}

/// Copies a list of texts.
fn clone_texts(list: &Vec<String>) -> (r: Vec<String>)
    ensures
        texts(r@) == texts(list@),
{
    let mut r: Vec<String> = Vec::new();
    let mut k: usize = 0;
    while k < list.len()
        invariant
            k <= list@.len(),
            texts(r@) =~= texts(list@).take(k as int),
        decreases list@.len() - k,
    {
        let ghost before = texts(r@);
        let text = list[k].clone();
        r.push(text);
        assert(texts(r@) =~= before.push(text@));
        let ghost all = texts(list@);
        assert(all.take(k + 1) =~= all.take(k as int).push(all[k as int]));
        k = k + 1;
    }
    assert(texts(list@).take(k as int) =~= texts(list@));
    r
}

impl PathArguments {
    /// Whether there is no argument.
    pub fn is_empty(&self) -> (b: bool)
        ensures
            b == self@.is_empty(),
            b == has_no_arguments(*self),
    {
        match self {
            PathArguments::Absent => true,
            PathArguments::AngleBracketed { args, .. } => args.len() == 0,
            PathArguments::Parenthesized(_) => false,
        }
    }

    /// The first argument, if it is in angle brackets and a type that is a path.
    pub fn first_type_path(&self) -> (r: Option<&ArgumentPath>)
        ensures
            self@.first_type_path() == match r {
                Some(path) => Some(path@),
                None => None,
            },
            match *self {
                PathArguments::AngleBracketed { turbofish, args } => match r {
                    Some(path) => first_path_of(args@) == Some(*path),
                    None => first_path_of(args@) is None,
                },
                _ => r is None,
            },
    {
        match self {
            PathArguments::AngleBracketed { args, .. } => {
                if args.len() > 0 {
                    match &args[0] {
                        GenericArgument::TypePath(path) => Some(path),
                        GenericArgument::Other(_) => None,
                    }
                } else {
                    None
                }
            },
            _ => None,
        }
    }
}

proof fn first_with_arguments_found(segments: Seq<PathSegmentView>, at: int)
    requires
        0 <= at <= segments.len(),
        forall|k: int| 0 <= k < at ==> (#[trigger] segments[k]).arguments.is_empty(),
        at < segments.len() ==> !segments[at].arguments.is_empty(),
    ensures
        first_with_arguments(segments) == at,
    decreases segments.len(),
{
    if at > 0 {
        assert(segments[0].arguments.is_empty());
        first_with_arguments_found(segments.drop_first(), at - 1);
    }
}

/// Finds the first segment with arguments.
fn find_with_arguments(path: &Path) -> (at: usize)
    ensures
        at == first_with_arguments(path@.segments),
        at <= path.segments@.len(),
{
    let mut at: usize = 0;
    while at < path.segments.len() && path.segments[at].arguments.is_empty()
        invariant
            at <= path.segments@.len(),
            forall|k: int| 0 <= k < at ==> (#[trigger] path@.segments[k]).arguments.is_empty(),
        decreases path.segments@.len() - at,
    {
        at = at + 1;
    }
    proof {
        first_with_arguments_found(path@.segments, at as int);
    }
    at
}

/// The instance that a path picks, if it picks one that is an identifier.
fn pick_instance(path: &Path) -> (r: Option<Ident>)
    ensures
        picked_instance(path@) == match r {
            Some(instance) => Some(instance@),
            None => None,
        },
{
    let at = find_with_arguments(path);
    if at < path.segments.len() {
        if let Some(argument) = path.segments[at].arguments.first_type_path() {
            if let Some(ident) = argument.single_ident() {
                return Some(ident.clone());
            }
        }
    }
    None
}

impl PalletDeclaration {
    /// Reads a declaration off a type definition and the path that it stands for.
    ///
    /// The first argument of the first path segment with arguments, if it is a type
    /// that is a path, picks the instance, and has to be an identifier. The arguments
    /// of that segment are then left out of the path.
    pub fn try_from(_attr_span: Span, item: &ItemType, path: &TypePath) -> (r: Result<
        PalletDeclaration,
        SyntaxError,
    >)
        requires
            picks_ident(path.path@),
        ensures
            r matches Ok(declaration) && declaration@ == declared(
                item.ident@,
                texts(item.attrs@),
                path.path@,
                picked_instance(path.path@),
            ),
    {
        let instance = pick_instance(&path.path);
        Ok(PalletDeclaration::declare(item, path, instance))
    }

    /// The declaration that a type definition and a path make, where the path picks the
    /// given instance or none. The arguments that pick an instance are left out of the
    /// path.
    pub fn declare(item: &ItemType, path: &TypePath, instance: Option<Ident>) -> (r:
        PalletDeclaration)
        requires
            instance is Some ==> path.path@.instance_type() is Some,
        ensures
            r@ == declared(
                item.ident@,
                texts(item.attrs@),
                path.path@,
                match instance {
                    Some(instance) => Some(instance@),
                    None => None,
                },
            ),
    {
        let name = item.ident.clone();
        let attrs = clone_texts(&item.attrs);
        let ghost given = path.path@;
        let mut path = path.path.clone();
        if instance.is_some() {
            let at = find_with_arguments(&path);
            let ident = path.segments[at].ident.clone();
            let segment = PathSegment { ident, arguments: PathArguments::Absent };
            path.segments.set(at, segment);
            assert(path@.segments =~= given.without_instance().segments);
        }
        PalletDeclaration { name, attrs, path, instance }
    }

    /// Reads a declaration off a type definition and the path that it stands for, or
    /// gives nothing where the path picks an instance that is no identifier.
    pub fn try_from_checked(attr_span: Span, item: &ItemType, path: &TypePath) -> (r: Option<
        PalletDeclaration,
    >)
        ensures
            match r {
                Some(declaration) => picks_ident(path.path@) && declaration@ == declared(
                    item.ident@,
                    texts(item.attrs@),
                    path.path@,
                    picked_instance(path.path@),
                ),
                None => !picks_ident(path.path@),
            },
    {
        let at = find_with_arguments(&path.path);
        if at < path.path.segments.len() {
            if let Some(argument) = path.path.segments[at].arguments.first_type_path() {
                if argument.single_ident().is_none() {
                    return None;
                }
            }
        }
        match PalletDeclaration::try_from(attr_span, item, path) {
            Ok(declaration) => Some(declaration),
            Err(_) => None,
        }
    }
}

/// The name and the attributes of a declaration are those of the type definition, and
/// its path leads through the same names. It differs from the given path only where an
/// instance is picked, and then only in the arguments of one segment.
pub proof fn declaration_keeps_names(
    name: IdentView,
    attrs: Seq<Seq<char>>,
    path: PathView,
    instance: Option<IdentView>,
)
    requires
        instance is Some ==> path.instance_type() is Some,
    ensures
        ({
            let d = declared(name, attrs, path, instance);
            &&& d.name == name
            &&& d.attrs == attrs
            &&& d.path.leading_colon == path.leading_colon
            &&& d.path.segments.len() == path.segments.len()
            &&& forall|k: int|
                0 <= k < path.segments.len() ==> (#[trigger] d.path.segments[k]).ident
                    == path.segments[k].ident
            &&& forall|k: int|
                0 <= k < path.segments.len() && !(instance is Some && k == first_with_arguments(
                    path.segments,
                )) ==> #[trigger] d.path.segments[k] == path.segments[k]
            &&& instance is None ==> d.path == path
            &&& d.instance == instance
            &&& instance is Some ==> d.path.segments[first_with_arguments(
                path.segments,
            )].arguments is Absent
        }),
{
    first_with_arguments_in_range(path.segments);
}

proof fn first_with_arguments_in_range(segments: Seq<PathSegmentView>)
    ensures
        0 <= first_with_arguments(segments) <= segments.len(),
    decreases segments.len(),
{
    if segments.len() > 0 {
        first_with_arguments_in_range(segments.drop_first());
    }
}

/// The first of the arguments in angle brackets, if it is a type that is a path.
pub open spec fn first_path_of(args: Seq<GenericArgument>) -> Option<ArgumentPath> {
    if args.len() > 0 {
        match args[0] {
            GenericArgument::TypePath(path) => Some(path),
            GenericArgument::Other(_) => None,
        }
    } else {
        None
    }
}

/// Whether a path is one name and nothing else, and the name is not marked as raw.
pub open spec fn is_one_name(path: ArgumentPath) -> bool {
    &&& path.qself is None
    &&& !path.leading_colon
    &&& path.segments@.len() == 1
    &&& path.segments@[0].arguments is None
    &&& !path.segments@[0].ident.raw
}

/// Whether there are no arguments: no brackets, or empty angle brackets.
pub open spec fn has_no_arguments(arguments: PathArguments) -> bool {
    match arguments {
        PathArguments::Absent => true,
        PathArguments::AngleBracketed { turbofish, args } => args@.len() == 0,
        PathArguments::Parenthesized(_) => false,
    }
}

/// Whether the segment at a place is the first one with arguments.
pub open spec fn is_first_with_arguments(path: Path, at: int) -> bool {
    &&& 0 <= at < path.segments@.len()
    &&& !has_no_arguments(path.segments@[at].arguments)
    &&& forall|j: int|
        0 <= j < at ==> has_no_arguments((#[trigger] path.segments@[j]).arguments)
}

/// The first argument of a segment, if it is in angle brackets, whether `::` stands before
/// these or not, and a type that is a path.
pub open spec fn first_path_in(segment: PathSegment) -> Option<ArgumentPath> {
    match segment.arguments {
        PathArguments::AngleBracketed { turbofish, args } => first_path_of(args@),
        _ => None,
    }
}

proof fn first_place_in_view(path: Path)
    ensures
        forall|at: int| #[trigger]
            is_first_with_arguments(path, at) ==> first_with_arguments(path@.segments) == at,
        (forall|j: int|
            0 <= j < path.segments@.len() ==> has_no_arguments(
                (#[trigger] path.segments@[j]).arguments,
            )) ==> first_with_arguments(path@.segments) == path.segments@.len(),
{
    let segments = path@.segments;
    assert forall|j: int| 0 <= j < segments.len() implies (
    #[trigger] segments[j]).arguments.is_empty() == has_no_arguments(path.segments@[j].arguments) by {
        assert(segments[j] == path.segments@[j]@);
    }
    assert forall|at: int| #[trigger] is_first_with_arguments(
        path,
        at,
    ) implies first_with_arguments(segments) == at by {
        assert forall|k: int| 0 <= k < at implies (#[trigger] segments[k]).arguments.is_empty() by {
            assert(has_no_arguments(path.segments@[k].arguments));
        }
        first_with_arguments_found(segments, at);
    }
    if forall|j: int|
        0 <= j < path.segments@.len() ==> has_no_arguments(
            (#[trigger] path.segments@[j]).arguments,
        ) {
        assert forall|k: int| 0 <= k < segments.len() implies (
        #[trigger] segments[k]).arguments.is_empty() by {
            assert(has_no_arguments(path.segments@[k].arguments));
        }
        first_with_arguments_found(segments, segments.len() as int);
    }
}

proof fn first_path_in_view(path: Path, at: int)
    requires
        0 <= at < path.segments@.len(),
    ensures
        path@.segments[at].arguments.first_type_path() == match first_path_in(path.segments@[at]) {
            Some(argument) => Some(argument@),
            None => None,
        },
        first_path_in(path.segments@[at]) matches Some(argument) ==> (argument@.single_ident()
            == if is_one_name(argument) {
            Some(argument.segments@[0].ident@)
        } else {
            None
        }),
{
    assert(path@.segments[at] == path.segments@[at]@);
    match path.segments@[at].arguments {
        PathArguments::AngleBracketed { turbofish, args } => {
            if args@.len() > 0 {
                assert(args@.map_values(|a: GenericArgument| a@)[0] == args@[0]@);
            }
        },
        _ => {},
    }
    if let Some(argument) = first_path_in(path.segments@[at]) {
        if argument.segments@.len() == 1 {
            assert(argument@.segments[0] == argument.segments@[0]@);
        }
    }
}

/// Where a path can be read: unless the first segment with arguments has, as the first of
/// them and in angle brackets, a type that is a path but not one name.
pub proof fn paths_that_can_be_read(path: Path)
    ensures
        picks_ident(path@) <==> forall|at: int| #[trigger]
            is_first_with_arguments(path, at) ==> (first_path_in(path.segments@[at]) matches Some(
                argument,
            ) ==> is_one_name(argument)),
{
    first_place_in_view(path);
    first_with_arguments_in_range(path@.segments);
    let at = first_with_arguments(path@.segments);
    if at < path.segments@.len() {
        first_with_arguments_is_first(path@.segments);
        assert(is_first_with_arguments(path, at)) by {
            assert(path@.segments[at] == path.segments@[at]@);
            assert forall|j: int| 0 <= j < at implies has_no_arguments(
                (#[trigger] path.segments@[j]).arguments,
            ) by {
                assert(path@.segments[j] == path.segments@[j]@);
                assert(path@.segments[j].arguments.is_empty());
            }
        }
        first_path_in_view(path, at);
    }
}

proof fn first_with_arguments_is_first(segments: Seq<PathSegmentView>)
    ensures
        ({
            let at = first_with_arguments(segments);
            &&& at < segments.len() ==> !segments[at].arguments.is_empty()
            &&& forall|j: int| 0 <= j < at ==> (#[trigger] segments[j]).arguments.is_empty()
        }),
    decreases segments.len(),
{
    if segments.len() > 0 && segments[0].arguments.is_empty() {
        let rest = segments.drop_first();
        first_with_arguments_is_first(rest);
        first_with_arguments_in_range(rest);
        let at = first_with_arguments(segments);
        assert forall|j: int| 0 <= j < at implies (#[trigger] segments[j]).arguments.is_empty() by {
            if j > 0 {
                assert(rest[j - 1] == segments[j]);
            }
        }
    }
}

/// What a declaration holds, in plain terms. Its name and its attributes are those of the
/// type definition, and its path has the same names. Where the first segment with arguments
/// has one name as the first of them, in angle brackets of either form, that name is the
/// instance, and this segment alone is left without arguments. Otherwise there is no
/// instance, and the path is as it was.
pub proof fn declarations_are_read_off(item: ItemType, path: Path, declaration: PalletDeclaration)
    requires
        declaration@ == declared(
            item.ident@,
            texts(item.attrs@),
            path@,
            picked_instance(path@),
        ),
    ensures
        declaration.name.name@ == item.ident.name@,
        declaration.name.raw == item.ident.raw,
        declaration.attrs@.len() == item.attrs@.len(),
        forall|k: int|
            0 <= k < item.attrs@.len() ==> (#[trigger] declaration.attrs@[k])@ == item.attrs@[k]@,
        declaration.path.leading_colon == path.leading_colon,
        declaration.path.segments@.len() == path.segments@.len(),
        forall|k: int|
            0 <= k < path.segments@.len() ==> (
            #[trigger] declaration.path.segments@[k]).ident.name@ == path.segments@[k].ident.name@
                && declaration.path.segments@[k].ident.raw == path.segments@[k].ident.raw,
        forall|at: int| #[trigger]
            is_first_with_arguments(path, at) ==> match first_path_in(path.segments@[at]) {
                Some(argument) if is_one_name(argument) => {
                    &&& declaration.instance matches Some(instance) && instance.name@
                        == argument.segments@[0].ident.name@ && !instance.raw
                    &&& declaration.path.segments@[at].arguments is Absent
                    &&& forall|k: int|
                        0 <= k < path.segments@.len() && k != at ==> (
                        #[trigger] declaration.path.segments@[k])@ == path.segments@[k]@
                },
                _ => {
                    &&& declaration.instance is None
                    &&& forall|k: int|
                        0 <= k < path.segments@.len() ==> (
                        #[trigger] declaration.path.segments@[k])@ == path.segments@[k]@
                },
            },
        (forall|j: int|
            0 <= j < path.segments@.len() ==> has_no_arguments(
                (#[trigger] path.segments@[j]).arguments,
            )) ==> declaration.instance is None && forall|k: int|
            0 <= k < path.segments@.len() ==> (#[trigger] declaration.path.segments@[k])@
                == path.segments@[k]@,
{
    let d = declaration@;
    first_place_in_view(path);
    first_with_arguments_in_range(path@.segments);
    assert(d.name == item.ident@);
    assert(texts(declaration.attrs@) == texts(item.attrs@));
    assert(declaration.attrs@.len() == texts(declaration.attrs@).len());
    assert(item.attrs@.len() == texts(item.attrs@).len());
    assert forall|k: int| 0 <= k < item.attrs@.len() implies (#[trigger] declaration.attrs@[k])@
        == item.attrs@[k]@ by {
        assert(texts(declaration.attrs@)[k] == texts(item.attrs@)[k]);
    }
    assert(declaration.path@ == d.path);
    assert(declaration.path.segments@.len() == d.path.segments.len());
    assert forall|k: int| 0 <= k < declaration.path.segments@.len() implies (
    #[trigger] declaration.path.segments@[k])@ == d.path.segments[k] by {
    }
    assert forall|k: int| 0 <= k < path.segments@.len() implies (#[trigger] path.segments@[k])@
        == path@.segments[k] by {
    }
    assert forall|k: int| 0 <= k < path.segments@.len() implies (
    #[trigger] declaration.path.segments@[k]).ident.name@ == path.segments@[k].ident.name@
        && declaration.path.segments@[k].ident.raw == path.segments@[k].ident.raw by {
        assert(declaration.path.segments@[k]@.ident == path.segments@[k]@.ident);
    }
    assert forall|at: int| #[trigger] is_first_with_arguments(path, at) implies match first_path_in(
        path.segments@[at],
    ) {
        Some(argument) if is_one_name(argument) => {
            &&& declaration.instance matches Some(instance) && instance.name@
                == argument.segments@[0].ident.name@ && !instance.raw
            &&& declaration.path.segments@[at].arguments is Absent
            &&& forall|k: int|
                0 <= k < path.segments@.len() && k != at ==> (
                #[trigger] declaration.path.segments@[k])@ == path.segments@[k]@
        },
        _ => {
            &&& declaration.instance is None
            &&& forall|k: int|
                0 <= k < path.segments@.len() ==> (#[trigger] declaration.path.segments@[k])@
                    == path.segments@[k]@
        },
    } by {
        first_path_in_view(path, at);
        if let Some(argument) = first_path_in(path.segments@[at]) {
            if is_one_name(argument) {
                assert(d.instance == Some(argument.segments@[0].ident@));
                assert(declaration.path.segments@[at]@.arguments is Absent);
            }
        }
    }
}

/// Whether `::` stands before angle brackets makes no difference: paths that differ in
/// nothing else pick the same instance, and lose the same arguments.
pub proof fn turbofish_makes_no_difference(a: Path, b: Path)
    requires
        a.segments@.len() == b.segments@.len(),
        forall|k: int|
            #![trigger a.segments@[k]]
            #![trigger b.segments@[k]]
            0 <= k < a.segments@.len() ==> match (
                a.segments@[k].arguments,
                b.segments@[k].arguments,
            ) {
                (
                    PathArguments::AngleBracketed { turbofish: _, args: x },
                    PathArguments::AngleBracketed { turbofish: _, args: y },
                ) => x == y,
                (x, y) => x == y,
            },
    ensures
        picked_instance(a@) == picked_instance(b@),
        picks_ident(a@) <==> picks_ident(b@),
        first_with_arguments(a@.segments) == first_with_arguments(b@.segments),
{
    first_place_in_view(a);
    first_place_in_view(b);
    first_with_arguments_in_range(a@.segments);
    let at = first_with_arguments(a@.segments);
    first_with_arguments_is_first(a@.segments);
    assert forall|j: int| 0 <= j < a.segments@.len() implies has_no_arguments(
        (#[trigger] a.segments@[j]).arguments,
    ) == a@.segments[j].arguments.is_empty() by {
        assert(a@.segments[j] == a.segments@[j]@);
    }
    assert forall|j: int| 0 <= j < a.segments@.len() implies has_no_arguments(
        (#[trigger] b.segments@[j]).arguments,
    ) == has_no_arguments(a.segments@[j].arguments) by {
    }
    if at < a.segments@.len() {
        assert(is_first_with_arguments(a, at));
        assert(is_first_with_arguments(b, at)) by {
            assert(!has_no_arguments(b.segments@[at].arguments));
            assert forall|j: int| 0 <= j < at implies has_no_arguments(
                (#[trigger] b.segments@[j]).arguments,
            ) by {
                assert(has_no_arguments(a.segments@[j].arguments));
            }
        }
        first_path_in_view(a, at);
        first_path_in_view(b, at);
        assert(first_path_in(a.segments@[at]) == first_path_in(b.segments@[at]));
    } else {
        assert forall|j: int| 0 <= j < b.segments@.len() implies has_no_arguments(
            (#[trigger] b.segments@[j]).arguments,
        ) by {
            assert(has_no_arguments(a.segments@[j].arguments));
        }
    }
}

/// What views hold: every field of what they are views of.
pub proof fn views_hold_every_field(
    ident: Ident,
    segment: ArgumentSegment,
    argument: ArgumentPath,
    generic: GenericArgument,
    arguments: PathArguments,
    part: PathSegment,
    path: Path,
    k: int,
)
    ensures
        ident@.name == ident.name@ && ident@.raw == ident.raw,
        segment@.ident == segment.ident@,
        segment.arguments is None <==> segment@.arguments is None,
        segment.arguments matches Some(text) ==> segment@.arguments == Some(text@),
        argument.qself is None <==> argument@.qself is None,
        argument.qself matches Some(text) ==> argument@.qself == Some(text@),
        argument@.leading_colon == argument.leading_colon,
        argument@.segments.len() == argument.segments@.len(),
        0 <= k < argument.segments@.len() ==> argument@.segments[k] == argument.segments@[k]@,
        generic matches GenericArgument::TypePath(p) ==> generic@ == GenericArgumentView::TypePath(
            p@,
        ),
        generic matches GenericArgument::Other(text) ==> generic@ == GenericArgumentView::Other(
            text@,
        ),
        arguments is Absent <==> arguments@ is Absent,
        arguments matches PathArguments::Parenthesized(text) ==> arguments@
            == PathArgumentsView::Parenthesized(text@),
        arguments matches PathArguments::AngleBracketed { turbofish, args } ==> (
        arguments@ matches PathArgumentsView::AngleBracketed { turbofish: t, args: a } && t
            == turbofish && a.len() == args@.len() && (0 <= k < args@.len() ==> a[k]
            == args@[k]@)),
        part@.ident == part.ident@ && part@.arguments == part.arguments@,
        path@.leading_colon == path.leading_colon,
        path@.segments.len() == path.segments@.len(),
        0 <= k < path.segments@.len() ==> path@.segments[k] == path.segments@[k]@,
{
}

} // verus!
