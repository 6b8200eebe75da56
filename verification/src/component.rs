//! Components, their type-erased handles, and bundles of components.
use core::fmt::Write;
use vstd::prelude::*;
use vstd::string::StringExecFns;

verus! {

/// A component whose type identifier is known only at run time.
///
/// The identifier must be unique per component type. The store reads it once,
/// when the component is erased, and never asks again.
pub trait DynamicComponent {
    /// The stable identifier of this component's type.
    fn get_id(&self) -> &str;

    /// A human-readable rendering of the value, for diagnostics.
    fn describe(&self) -> (text: String)
        ensures
            self.describes(text),
    ;

    /// Whether `text` is a rendering of the value as `describe` gives it. A
    /// type that says nothing of its renderings leaves every text open.
    open spec fn describes(&self, text: String) -> bool {
        true
    }
}

/// A component whose type identifier is known at compile time.
pub trait Component: core::fmt::Debug {
    /// The stable identifier of the type.
    fn get_id() -> &'static str;
}

impl<T> DynamicComponent for T where T: Component {
    /// The identifier is what the type answers for all its values.
    fn get_id(&self) -> (id: &str)
        ensures
            call_ensures(<T as Component>::get_id, (), id),
    {
        T::get_id()
    }

    /// The rendering is what the type's `Debug` prints for this value.
    fn describe(&self) -> (text: String)
        ensures
            is_debug_text(self, text),
    {
        debug_format(self)
    }

    /// The renderings of a component of a known type are what its `Debug`
    /// prints.
    open spec fn describes(&self, text: String) -> bool {
        is_debug_text(self, text)
    }
}

/// Whether `text` is what formatting `value` with `{:?}` gave.
pub closed spec fn is_debug_text<T: core::fmt::Debug>(value: &T, text: String) -> bool {
    call_ensures(debug_format::<T>, (value,), text)
}

/// Calls `write!` with `{:?}`, that is `core::fmt::Debug::fmt` of `T`, on a
/// new text. Nothing is claimed of the text: it is whatever the type's
/// `Debug` prints, up to the place where it gives up, if it does.
#[verifier::external_body]
fn debug_format<T: core::fmt::Debug>(value: &T) -> String {
    let mut text = String::new();
    let _ = write!(text, "{:?}", value);
    text
}

/// The identifier of the component type with the name `name` that is
/// defined in the module with the path `module`: `rs$`, the module's path,
/// `::`, and the name.
pub fn component_id(module: &str, name: &str) -> (id: String)
    ensures
        id@ == "rs$"@ + module@ + "::"@ + name@,
{
    let mut id = "rs$".to_owned();
    id.append(module);
    id.append("::");
    id.append(name);
    id
}

/// An owned component value whose concrete type has been erased, together
/// with the identifier that its type reported when it was erased.
pub struct ErasedComponent {
    id: String,
    value: Box<dyn DynamicComponent>,
}

impl ErasedComponent {
    /// The identifier of the component's type, as a sequence of characters.
    pub closed spec fn identifier(&self) -> Seq<char> {
        self.id@
    }

    /// Whether the value that this handle owns is `component`.
    pub closed spec fn holds<T: DynamicComponent + 'static>(&self, component: T) -> bool {
        *self == (ErasedComponent { id: self.id, value: Box::new(component) })
    }

    /// Whether the identifier of this handle is what `component` answered
    /// when it was asked for the identifier of its type.
    pub closed spec fn reported_by<T: DynamicComponent + 'static>(&self, component: T) -> bool {
        exists|answer: &str|
            call_ensures(<T as DynamicComponent>::get_id, (&component,), answer) && answer@
                == self.id@
    }

    /// What it means that a handle's identifier was reported by a component:
    /// the identifier is the text of an answer that the component gave when
    /// it was asked for the identifier of its type.
    pub proof fn lemma_reported_by<T: DynamicComponent + 'static>(&self, component: T)
        requires
            self.reported_by(component),
        ensures
            exists|answer: &str|
                call_ensures(<T as DynamicComponent>::get_id, (&component,), answer) && answer@
                    == self.identifier(),
    {
    }

    /// What it means that a handle holds a component: the handle describes
    /// itself with exactly the texts with which the component does.
    pub proof fn lemma_holds<T: DynamicComponent + 'static>(&self, component: T, text: String)
        requires
            self.holds(component),
        ensures
            self.described_by(text) <==> component.describes(text),
    {
    }

    /// Erases the type of `component`, asking it once for its identifier.
    /// The handle owns the component; its identifier is what the component
    /// answered.
    pub fn new<T: DynamicComponent + 'static>(component: T) -> (erased: ErasedComponent)
        ensures
            erased.holds(component),
            erased.reported_by(component),
    {
        let id = component.get_id().to_owned();
        ErasedComponent { id, value: Box::new(component) }
    }

    /// The identifier of the component's type.
    pub fn get_id(&self) -> (id: &str)
        ensures
            id@ == self.identifier(),
    {
        self.id.as_str()
    }

    /// The component's own rendering of its value.
    pub fn describe(&self) -> (text: String)
        ensures
            self.described_by(text),
    {
        self.value.describe()
    }

    /// Whether `text` is a rendering of the component that this handle owns,
    /// as the component's own `describe` gives it.
    pub closed spec fn described_by(&self, text: String) -> bool {
        self.value.describes(text)
    }
}

/// A bundle of components, used when adding a new entity: anything that can
/// be taken apart into an ordered sequence of erased components.
pub trait ComponentBundle: Sized {
    /// Whether `components` are the components of this bundle, erased, in
    /// the bundle's order.
    spec fn yields(self, components: Seq<ErasedComponent>) -> bool;

    /// Takes the bundle apart.
    fn into_components(self) -> (components: Vec<ErasedComponent>)
        ensures
            self.yields(components@),
    ;
}

impl<T: DynamicComponent + 'static> ComponentBundle for T {
    /// A single component is a bundle of one.
    open spec fn yields(self, components: Seq<ErasedComponent>) -> bool {
        &&& components.len() == 1
        &&& components[0].holds(self)
        &&& components[0].reported_by(self)
    }

    fn into_components(self) -> (components: Vec<ErasedComponent>) {
        let mut components: Vec<ErasedComponent> = Vec::new();
        components.push(ErasedComponent::new(self));
        components
    }
}

impl<T, U> ComponentBundle for (T, U) where
    T: DynamicComponent + 'static,
    U: DynamicComponent + 'static,
 {
    open spec fn yields(self, components: Seq<ErasedComponent>) -> bool {
        &&& components.len() == 2
        &&& components[0].holds(self.0)
        &&& components[0].reported_by(self.0)
        &&& components[1].holds(self.1)
        &&& components[1].reported_by(self.1)
    }

    fn into_components(self) -> (components: Vec<ErasedComponent>) {
        let mut components: Vec<ErasedComponent> = Vec::new();
        components.push(ErasedComponent::new(self.0));
        components.push(ErasedComponent::new(self.1));
        components
    }
}

impl<T, U, V> ComponentBundle for (T, U, V) where
    T: DynamicComponent + 'static,
    U: DynamicComponent + 'static,
    V: DynamicComponent + 'static,
 {
    open spec fn yields(self, components: Seq<ErasedComponent>) -> bool {
        &&& components.len() == 3
        &&& components[0].holds(self.0)
        &&& components[0].reported_by(self.0)
        &&& components[1].holds(self.1)
        &&& components[1].reported_by(self.1)
        &&& components[2].holds(self.2)
        &&& components[2].reported_by(self.2)
    }

    fn into_components(self) -> (components: Vec<ErasedComponent>) {
        let mut components: Vec<ErasedComponent> = Vec::new();
        components.push(ErasedComponent::new(self.0));
        components.push(ErasedComponent::new(self.1));
        components.push(ErasedComponent::new(self.2));
        components
    }
}

impl<T, U, V, W> ComponentBundle for (T, U, V, W) where
    T: DynamicComponent + 'static,
    U: DynamicComponent + 'static,
    V: DynamicComponent + 'static,
    W: DynamicComponent + 'static,
 {
    open spec fn yields(self, components: Seq<ErasedComponent>) -> bool {
        &&& components.len() == 4
        &&& components[0].holds(self.0)
        &&& components[0].reported_by(self.0)
        &&& components[1].holds(self.1)
        &&& components[1].reported_by(self.1)
        &&& components[2].holds(self.2)
        &&& components[2].reported_by(self.2)
        &&& components[3].holds(self.3)
        &&& components[3].reported_by(self.3)
    }

    fn into_components(self) -> (components: Vec<ErasedComponent>) {
        let mut components: Vec<ErasedComponent> = Vec::new();
        components.push(ErasedComponent::new(self.0));
        components.push(ErasedComponent::new(self.1));
        components.push(ErasedComponent::new(self.2));
        components.push(ErasedComponent::new(self.3));
        components
    }
}

impl<T, U, V, W, X> ComponentBundle for (T, U, V, W, X) where
    T: DynamicComponent + 'static,
    U: DynamicComponent + 'static,
    V: DynamicComponent + 'static,
    W: DynamicComponent + 'static,
    X: DynamicComponent + 'static,
 {
    open spec fn yields(self, components: Seq<ErasedComponent>) -> bool {
        &&& components.len() == 5
        &&& components[0].holds(self.0)
        &&& components[0].reported_by(self.0)
        &&& components[1].holds(self.1)
        &&& components[1].reported_by(self.1)
        &&& components[2].holds(self.2)
        &&& components[2].reported_by(self.2)
        &&& components[3].holds(self.3)
        &&& components[3].reported_by(self.3)
        &&& components[4].holds(self.4)
        &&& components[4].reported_by(self.4)
    }

    fn into_components(self) -> (components: Vec<ErasedComponent>) {
        let mut components: Vec<ErasedComponent> = Vec::new();
        components.push(ErasedComponent::new(self.0));
        components.push(ErasedComponent::new(self.1));
        components.push(ErasedComponent::new(self.2));
        components.push(ErasedComponent::new(self.3));
        components.push(ErasedComponent::new(self.4));
        components
    }
}

impl<T, U, V, W, X, Y> ComponentBundle for (T, U, V, W, X, Y) where
    T: DynamicComponent + 'static,
    U: DynamicComponent + 'static,
    V: DynamicComponent + 'static,
    W: DynamicComponent + 'static,
    X: DynamicComponent + 'static,
    Y: DynamicComponent + 'static,
 {
    open spec fn yields(self, components: Seq<ErasedComponent>) -> bool {
        &&& components.len() == 6
        &&& components[0].holds(self.0)
        &&& components[0].reported_by(self.0)
        &&& components[1].holds(self.1)
        &&& components[1].reported_by(self.1)
        &&& components[2].holds(self.2)
        &&& components[2].reported_by(self.2)
        &&& components[3].holds(self.3)
        &&& components[3].reported_by(self.3)
        &&& components[4].holds(self.4)
        &&& components[4].reported_by(self.4)
        &&& components[5].holds(self.5)
        &&& components[5].reported_by(self.5)
    }

    fn into_components(self) -> (components: Vec<ErasedComponent>) {
        let mut components: Vec<ErasedComponent> = Vec::new();
        components.push(ErasedComponent::new(self.0));
        components.push(ErasedComponent::new(self.1));
        components.push(ErasedComponent::new(self.2));
        components.push(ErasedComponent::new(self.3));
        components.push(ErasedComponent::new(self.4));
        components.push(ErasedComponent::new(self.5));
        components
    }
}

impl<T, U, V, W, X, Y, Z> ComponentBundle for (T, U, V, W, X, Y, Z) where
    T: DynamicComponent + 'static,
    U: DynamicComponent + 'static,
    V: DynamicComponent + 'static,
    W: DynamicComponent + 'static,
    X: DynamicComponent + 'static,
    Y: DynamicComponent + 'static,
    Z: DynamicComponent + 'static,
 {
    open spec fn yields(self, components: Seq<ErasedComponent>) -> bool {
        &&& components.len() == 7
        &&& components[0].holds(self.0)
        &&& components[0].reported_by(self.0)
        &&& components[1].holds(self.1)
        &&& components[1].reported_by(self.1)
        &&& components[2].holds(self.2)
        &&& components[2].reported_by(self.2)
        &&& components[3].holds(self.3)
        &&& components[3].reported_by(self.3)
        &&& components[4].holds(self.4)
        &&& components[4].reported_by(self.4)
        &&& components[5].holds(self.5)
        &&& components[5].reported_by(self.5)
        &&& components[6].holds(self.6)
        &&& components[6].reported_by(self.6)
    }

    fn into_components(self) -> (components: Vec<ErasedComponent>) {
        let mut components: Vec<ErasedComponent> = Vec::new();
        components.push(ErasedComponent::new(self.0));
        components.push(ErasedComponent::new(self.1));
        components.push(ErasedComponent::new(self.2));
        components.push(ErasedComponent::new(self.3));
        components.push(ErasedComponent::new(self.4));
        components.push(ErasedComponent::new(self.5));
        components.push(ErasedComponent::new(self.6));
        components
    }
}

} // verus!
