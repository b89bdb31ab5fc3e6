//! The types of the language and the registry of the names that stand for
//! them.

use vstd::prelude::*;
use crate::names::{same_text, views};

verus! {

/// The kinds of item that are built in.
#[derive(Clone, Copy, Debug, PartialEq, Eq, Structural)]
pub enum ItemKind {
    Rectangle,
    BorderRectangle,
    Image,
    Text,
    TouchArea,
    Path,
    Flickable,
    Window,
    /// Places its children side by side, left to right.
    RowLayout,
    /// Places its children one under the other.
    ColumnLayout,
}

/// The type of a property, of an expression or of an element.
#[derive(Clone, Copy, Debug, PartialEq, Eq, Structural)]
pub enum Type {
    /// The type of what could not be typed.
    Invalid,
    /// A component of the document, by its position in the document.
    Component(usize),
    /// A built-in item.
    Builtin(ItemKind),
    Signal,
    Float32,
    Int32,
    String,
    Color,
    Image,
    Bool,
}

/// A declared property or signal: its name and its type.
#[derive(Debug)]
pub struct PropertyDeclaration {
    pub name: String,
    pub property_type: Type,
}

/// The content of a [`PropertyDeclaration`].
pub struct DeclarationView {
    pub name: Seq<char>,
    pub property_type: Type,
}

impl View for PropertyDeclaration {
    type V = DeclarationView;

    open spec fn view(&self) -> DeclarationView {
        DeclarationView { name: self.name@, property_type: self.property_type }
    }
}

/// A declaration, as a value of the model.
pub open spec fn decl(name: Seq<char>, property_type: Type) -> DeclarationView {
    DeclarationView { name, property_type }
}

/// The four properties that place an item.
pub open spec fn geometry_table() -> Seq<DeclarationView> {
    seq![
        decl("x"@, Type::Float32),
        decl("y"@, Type::Float32),
        decl("width"@, Type::Float32),
        decl("height"@, Type::Float32),
    ]
}

/// The properties and signals that an item of the given kind has, in the
/// order in which its record holds them. Every kind starts with `x`, `y`,
/// `width` and `height`.
pub open spec fn builtin_table(kind: ItemKind) -> Seq<DeclarationView> {
    match kind {
        ItemKind::Rectangle => geometry_table() + seq![decl("color"@, Type::Color)],
        ItemKind::BorderRectangle => geometry_table() + seq![
            decl("color"@, Type::Color),
            decl("border_width"@, Type::Float32),
            decl("border_radius"@, Type::Float32),
            decl("border_color"@, Type::Color),
        ],
        ItemKind::Image => geometry_table() + seq![decl("source"@, Type::Image)],
        ItemKind::Text => geometry_table() + seq![
            decl("text"@, Type::String),
            decl("font_family"@, Type::String),
            decl("font_size"@, Type::Float32),
            decl("color"@, Type::Color),
            decl("horizontal_alignment"@, Type::String),
            decl("vertical_alignment"@, Type::String),
        ],
        ItemKind::TouchArea => geometry_table() + seq![
            decl("pressed"@, Type::Bool),
            decl("pressed_x"@, Type::Float32),
            decl("pressed_y"@, Type::Float32),
            decl("mouse_x"@, Type::Float32),
            decl("mouse_y"@, Type::Float32),
            decl("clicked"@, Type::Signal),
        ],
        ItemKind::Path => geometry_table() + seq![
            decl("fill_color"@, Type::Color),
            decl("stroke_color"@, Type::Color),
            decl("stroke_width"@, Type::Float32),
        ],
        ItemKind::Flickable => geometry_table() + seq![
            decl("viewport_x"@, Type::Float32),
            decl("viewport_y"@, Type::Float32),
            decl("viewport_width"@, Type::Float32),
            decl("viewport_height"@, Type::Float32),
        ],
        ItemKind::Window => geometry_table(),
        ItemKind::RowLayout => geometry_table() + seq![decl("spacing"@, Type::Float32)],
        ItemKind::ColumnLayout => geometry_table() + seq![decl("spacing"@, Type::Float32)],
    }
}

/// The position of `x` in every item record.
pub const GEOMETRY_X: usize = 0;

/// The position of `y` in every item record.
pub const GEOMETRY_Y: usize = 1;

/// The position of `width` in every item record.
pub const GEOMETRY_WIDTH: usize = 2;

/// The position of `height` in every item record.
pub const GEOMETRY_HEIGHT: usize = 3;

fn declare(table: &mut Vec<PropertyDeclaration>, name: &str, property_type: Type)
    ensures
        views(final(table)@) == views(old(table)@).push(decl(name@, property_type)),
{
    table.push(PropertyDeclaration { name: String::from_str(name), property_type });
    assert(views(table@) =~= views(old(table)@).push(decl(name@, property_type)));
}

/// The properties and signals of an item of the given kind.
pub fn builtin_properties(kind: ItemKind) -> (table: Vec<PropertyDeclaration>)
    ensures
        views(table@) == builtin_table(kind),
{
    let mut table: Vec<PropertyDeclaration> = Vec::new();
    assert(views(table@) =~= Seq::<DeclarationView>::empty());
    declare(&mut table, "x", Type::Float32);
    declare(&mut table, "y", Type::Float32);
    declare(&mut table, "width", Type::Float32);
    declare(&mut table, "height", Type::Float32);
    assert(views(table@) =~= geometry_table());
    match kind {
        ItemKind::Rectangle => {
            declare(&mut table, "color", Type::Color);
        },
        ItemKind::BorderRectangle => {
            declare(&mut table, "color", Type::Color);
            declare(&mut table, "border_width", Type::Float32);
            declare(&mut table, "border_radius", Type::Float32);
            declare(&mut table, "border_color", Type::Color);
        },
        ItemKind::Image => {
            declare(&mut table, "source", Type::Image);
        },
        ItemKind::Text => {
            declare(&mut table, "text", Type::String);
            declare(&mut table, "font_family", Type::String);
            declare(&mut table, "font_size", Type::Float32);
            declare(&mut table, "color", Type::Color);
            declare(&mut table, "horizontal_alignment", Type::String);
            declare(&mut table, "vertical_alignment", Type::String);
        },
        ItemKind::TouchArea => {
            declare(&mut table, "pressed", Type::Bool);
            declare(&mut table, "pressed_x", Type::Float32);
            declare(&mut table, "pressed_y", Type::Float32);
            declare(&mut table, "mouse_x", Type::Float32);
            declare(&mut table, "mouse_y", Type::Float32);
            declare(&mut table, "clicked", Type::Signal);
        },
        ItemKind::Path => {
            declare(&mut table, "fill_color", Type::Color);
            declare(&mut table, "stroke_color", Type::Color);
            declare(&mut table, "stroke_width", Type::Float32);
        },
        ItemKind::Flickable => {
            declare(&mut table, "viewport_x", Type::Float32);
            declare(&mut table, "viewport_y", Type::Float32);
            declare(&mut table, "viewport_width", Type::Float32);
            declare(&mut table, "viewport_height", Type::Float32);
        },
        ItemKind::Window => {},
        ItemKind::RowLayout => {
            declare(&mut table, "spacing", Type::Float32);
        },
        ItemKind::ColumnLayout => {
            declare(&mut table, "spacing", Type::Float32);
        },
    }
    assert(views(table@) =~= builtin_table(kind));
    table
}

/// The number of properties and signals of an item of the given kind.
pub fn builtin_count(kind: ItemKind) -> (n: usize)
    ensures
        n == builtin_table(kind).len(),
        4 <= n <= 10,
{
    match kind {
        ItemKind::Rectangle => 5,
        ItemKind::BorderRectangle => 8,
        ItemKind::Image => 5,
        ItemKind::Text => 10,
        ItemKind::TouchArea => 10,
        ItemKind::Path => 7,
        ItemKind::Flickable => 8,
        ItemKind::Window => 4,
        ItemKind::RowLayout => 5,
        ItemKind::ColumnLayout => 5,
    }
}

/// The first declaration of `name` in `table`, by position.
pub open spec fn declared_at(table: Seq<DeclarationView>, name: Seq<char>) -> Option<int>
    decreases table.len(),
{
    if table.len() == 0 {
        None
    } else if table[0].name == name {
        Some(0)
    } else {
        match declared_at(table.subrange(1, table.len() as int), name) {
            Some(i) => Some(i + 1),
            None => None,
        }
    }
}

/// `declared_at` finds the first declaration of the name, and misses only a
/// name that is not declared.
pub proof fn lemma_declared_at(table: Seq<DeclarationView>, name: Seq<char>)
    ensures
        match declared_at(table, name) {
            Some(i) => 0 <= i < table.len() && table[i].name == name && forall|k: int|
                0 <= k < i ==> table[k].name != name,
            None => forall|k: int| 0 <= k < table.len() ==> table[k].name != name,
        },
    decreases table.len(),
{
    if table.len() > 0 && table[0].name != name {
        let rest = table.subrange(1, table.len() as int);
        lemma_declared_at(rest, name);
        match declared_at(rest, name) {
            Some(i) => {
                assert(rest[i] == table[i + 1]);
                assert forall|k: int| 0 <= k < i + 1 implies table[k].name != name by {
                    if k > 0 {
                        assert(rest[k - 1] == table[k]);
                    }
                }
            },
            None => {
                assert forall|k: int| 0 <= k < table.len() implies table[k].name != name by {
                    if k > 0 {
                        assert(rest[k - 1] == table[k]);
                    }
                }
            },
        }
    }
}

/// A position that holds the name and has no declaration of it before is the
/// one that `declared_at` gives.
pub proof fn lemma_declared_at_is(table: Seq<DeclarationView>, name: Seq<char>, i: int)
    requires
        0 <= i < table.len(),
        table[i].name == name,
        forall|k: int| 0 <= k < i ==> table[k].name != name,
    ensures
        declared_at(table, name) == Some(i),
{
    lemma_declared_at(table, name);
}

/// No position holds the name: `declared_at` gives nothing.
pub proof fn lemma_declared_at_none(table: Seq<DeclarationView>, name: Seq<char>)
    requires
        forall|k: int| 0 <= k < table.len() ==> table[k].name != name,
    ensures
        declared_at(table, name).is_none(),
{
    lemma_declared_at(table, name);
}

/// The position of the first declaration of `name` in `table`.
pub fn find_declaration(table: &Vec<PropertyDeclaration>, name: &str) -> (found: Option<usize>)
    ensures
        match found {
            Some(i) => declared_at(views(table@), name@) == Some(i as int) && i < table.len(),
            None => declared_at(views(table@), name@).is_none(),
        },
{
    let mut i: usize = 0;
    while i < table.len()
        invariant
            i <= table.len(),
            forall|k: int| 0 <= k < i ==> views(table@)[k].name != name@,
        decreases table.len() - i,
    {
        if same_text(table[i].name.as_str(), name) {
            proof {
                assert(views(table@)[i as int].name == name@);
                lemma_declared_at_is(views(table@), name@, i as int);
            }
            return Some(i);
        }
        i += 1;
    }
    proof {
        lemma_declared_at_none(views(table@), name@);
    }
    None
}

/// One name of the registry and the type it stands for.
#[derive(Debug)]
pub struct RegisteredType {
    pub name: String,
    pub ty: Type,
}

impl View for RegisteredType {
    type V = (Seq<char>, Type);

    open spec fn view(&self) -> (Seq<char>, Type) {
        (self.name@, self.ty)
    }
}

/// What a list of registrations gives for `name`: the type of the last
/// registration of that name.
pub open spec fn lookup_in(entries: Seq<(Seq<char>, Type)>, name: Seq<char>) -> Option<Type>
    decreases entries.len(),
{
    if entries.len() == 0 {
        None
    } else if entries.last().0 == name {
        Some(entries.last().1)
    } else {
        lookup_in(entries.drop_last(), name)
    }
}

/// What a chain of scopes gives for `name`: what the innermost scope that
/// knows the name gives. The last scope is the innermost.
pub open spec fn lookup_chain(scopes: Seq<Seq<(Seq<char>, Type)>>, name: Seq<char>) -> Option<Type>
    decreases scopes.len(),
{
    if scopes.len() == 0 {
        None
    } else {
        match lookup_in(scopes.last(), name) {
            Some(ty) => Some(ty),
            None => lookup_chain(scopes.drop_last(), name),
        }
    }
}

/// The names of the built-in scope.
pub open spec fn builtin_scope() -> Seq<(Seq<char>, Type)> {
    seq![
        ("float32"@, Type::Float32),
        ("int32"@, Type::Int32),
        ("string"@, Type::String),
        ("color"@, Type::Color),
        ("image"@, Type::Image),
        ("bool"@, Type::Bool),
        ("signal"@, Type::Signal),
        ("Rectangle"@, Type::Builtin(ItemKind::Rectangle)),
        ("BorderRectangle"@, Type::Builtin(ItemKind::BorderRectangle)),
        ("Image"@, Type::Builtin(ItemKind::Image)),
        ("Text"@, Type::Builtin(ItemKind::Text)),
        ("TouchArea"@, Type::Builtin(ItemKind::TouchArea)),
        ("Path"@, Type::Builtin(ItemKind::Path)),
        ("Flickable"@, Type::Builtin(ItemKind::Flickable)),
        ("Window"@, Type::Builtin(ItemKind::Window)),
        ("RowLayout"@, Type::Builtin(ItemKind::RowLayout)),
        ("ColumnLayout"@, Type::Builtin(ItemKind::ColumnLayout)),
    ]
}

/// A chain of scopes, each a list of names with their types. A name is
/// looked up in the innermost scope first.
pub struct TypeRegister {
    scopes: Vec<Vec<RegisteredType>>,
}

fn register(scope: &mut Vec<RegisteredType>, name: &str, ty: Type)
    ensures
        views(final(scope)@) == views(old(scope)@).push((name@, ty)),
{
    scope.push(RegisteredType { name: String::from_str(name), ty });
    assert(views(scope@) =~= views(old(scope)@).push((name@, ty)));
}

fn lookup_scope(scope: &Vec<RegisteredType>, name: &str) -> (found: Option<Type>)
    ensures
        found == lookup_in(views(scope@), name@),
{
    let mut i: usize = scope.len();
    assert(views(scope@).subrange(0, i as int) =~= views(scope@));
    while i > 0
        invariant
            i <= scope.len(),
            lookup_in(views(scope@), name@) == lookup_in(
                views(scope@).subrange(0, i as int),
                name@,
            ),
        decreases i,
    {
        let ghost prefix = views(scope@).subrange(0, i as int);
        i -= 1;
        assert(prefix.last() == views(scope@)[i as int]);
        assert(prefix.drop_last() =~= views(scope@).subrange(0, i as int));
        if same_text(scope[i].name.as_str(), name) {
            return Some(scope[i].ty);
        }
    }
    None
}

impl TypeRegister {
    /// The scopes, outermost first.
    pub closed spec fn scopes(&self) -> Seq<Seq<(Seq<char>, Type)>> {
        Seq::new(self.scopes@.len(), |i: int| views(self.scopes@[i]@))
    }

    /// A registry with one scope, which holds the built-in names.
    pub fn builtin() -> (registry: Self)
        ensures
            registry.scopes() == seq![builtin_scope()],
    {
        let mut scope: Vec<RegisteredType> = Vec::new();
        assert(views(scope@) =~= Seq::<(Seq<char>, Type)>::empty());
        register(&mut scope, "float32", Type::Float32);
        register(&mut scope, "int32", Type::Int32);
        register(&mut scope, "string", Type::String);
        register(&mut scope, "color", Type::Color);
        register(&mut scope, "image", Type::Image);
        register(&mut scope, "bool", Type::Bool);
        register(&mut scope, "signal", Type::Signal);
        register(&mut scope, "Rectangle", Type::Builtin(ItemKind::Rectangle));
        register(&mut scope, "BorderRectangle", Type::Builtin(ItemKind::BorderRectangle));
        register(&mut scope, "Image", Type::Builtin(ItemKind::Image));
        register(&mut scope, "Text", Type::Builtin(ItemKind::Text));
        register(&mut scope, "TouchArea", Type::Builtin(ItemKind::TouchArea));
        register(&mut scope, "Path", Type::Builtin(ItemKind::Path));
        register(&mut scope, "Flickable", Type::Builtin(ItemKind::Flickable));
        register(&mut scope, "Window", Type::Builtin(ItemKind::Window));
        register(&mut scope, "RowLayout", Type::Builtin(ItemKind::RowLayout));
        register(&mut scope, "ColumnLayout", Type::Builtin(ItemKind::ColumnLayout));
        assert(views(scope@) =~= builtin_scope());
        let mut scopes: Vec<Vec<RegisteredType>> = Vec::new();
        scopes.push(scope);
        let registry = TypeRegister { scopes };
        assert(registry.scopes() =~= seq![builtin_scope()]);
        registry
    }

    /// A registry that sees every name of `parent` and has an empty scope of
    /// its own inside.
    pub fn new(parent: &TypeRegister) -> (registry: Self)
        ensures
            registry.scopes() == parent.scopes().push(Seq::empty()),
    {
        let mut scopes: Vec<Vec<RegisteredType>> = Vec::new();
        let mut i: usize = 0;
        while i < parent.scopes.len()
            invariant
                i <= parent.scopes.len(),
                scopes.len() == i,
                forall|k: int| 0 <= k < i ==> views(scopes@[k]@) == views(parent.scopes@[k]@),
            decreases parent.scopes.len() - i,
        {
            let source = &parent.scopes[i];
            let mut copy: Vec<RegisteredType> = Vec::new();
            let mut j: usize = 0;
            while j < source.len()
                invariant
                    j <= source.len(),
                    copy.len() == j,
                    forall|k: int| 0 <= k < j ==> copy@[k]@ == source@[k]@,
                decreases source.len() - j,
            {
                copy.push(RegisteredType { name: source[j].name.clone(), ty: source[j].ty });
                j += 1;
            }
            assert(views(copy@) =~= views(source@));
            scopes.push(copy);
            i += 1;
        }
        let inner: Vec<RegisteredType> = Vec::new();
        assert(views(inner@) =~= Seq::<(Seq<char>, Type)>::empty());
        scopes.push(inner);
        let registry = TypeRegister { scopes };
        assert(registry.scopes() =~= parent.scopes().push(Seq::empty()));
        registry
    }

    /// Registers `name` in the innermost scope. A registry without a scope
    /// gets one.
    pub fn add(&mut self, name: String, ty: Type)
        ensures
            old(self).scopes().len() == 0 ==> final(self).scopes() == seq![seq![(name@, ty)]],
            old(self).scopes().len() > 0 ==> final(self).scopes() == old(self).scopes().update(
                old(self).scopes().len() - 1,
                old(self).scopes().last().push((name@, ty)),
            ),
    {
        if self.scopes.len() == 0 {
            let mut scope: Vec<RegisteredType> = Vec::new();
            scope.push(RegisteredType { name, ty });
            assert(views(scope@) =~= seq![(name@, ty)]);
            self.scopes.push(scope);
            assert(self.scopes() =~= seq![seq![(name@, ty)]]);
        } else {
            let last = self.scopes.len() - 1;
            let ghost before = views(self.scopes@[last as int]@);
            self.scopes[last].push(RegisteredType { name, ty });
            proof {
                assert(views(self.scopes@[last as int]@) =~= before.push((name@, ty)));
                assert(self.scopes() =~= old(self).scopes().update(
                    old(self).scopes().len() - 1,
                    old(self).scopes().last().push((name@, ty)),
                ));
            }
        }
    }

    /// The type that `name` stands for, `Invalid` when no scope knows it.
    pub fn lookup(&self, name: &str) -> (ty: Type)
        ensures
            ty == match lookup_chain(self.scopes(), name@) {
                Some(found) => found,
                None => Type::Invalid,
            },
    {
        let mut i: usize = self.scopes.len();
        assert(self.scopes().subrange(0, i as int) =~= self.scopes());
        while i > 0
            invariant
                i <= self.scopes.len(),
                lookup_chain(self.scopes(), name@) == lookup_chain(
                    self.scopes().subrange(0, i as int),
                    name@,
                ),
            decreases i,
        {
            let ghost prefix = self.scopes().subrange(0, i as int);
            i -= 1;
            assert(prefix.last() == views(self.scopes@[i as int]@));
            assert(prefix.drop_last() =~= self.scopes().subrange(0, i as int));
            match lookup_scope(&self.scopes[i], name) {
                Some(ty) => {
                    return ty;
                },
                None => {},
            }
        }
        Type::Invalid
    }
}

} // verus!
