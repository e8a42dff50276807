//! Which product of a manifest is flashed to a target, and when a target is refused.

use vstd::prelude::*;

verus! {

/// A file that is staged before a command of the manufacturer is sent.
#[derive(Clone, Debug, PartialEq, Eq)]
pub struct OemFile {
    pub command: String,
    pub file: String,
}

/// A partition and the file to flash to it. With a variable, the partition is flashed only if the
/// variable has the given value on the target.
#[derive(Clone, Debug, PartialEq, Eq)]
pub struct Partition(pub String, pub String, pub Option<String>, pub Option<String>);

/// What is flashed together.
#[derive(Clone, Debug, PartialEq, Eq)]
pub struct Product {
    pub name: String,
    pub bootloader_partitions: Vec<Partition>,
    pub partitions: Vec<Partition>,
    pub oem_files: Vec<OemFile>,
    /// A target that is locked cannot take the product.
    pub requires_unlock: bool,
}

/// The products that can be flashed.
#[derive(Clone, Debug, PartialEq, Eq)]
pub struct FlashManifest(pub Vec<Product>);

/// What to do next.
#[derive(Clone, Copy, Debug, PartialEq, Eq, Structural)]
pub enum FlashStep {
    /// Fail: no product has the name.
    MissingProduct,
    /// Ask the target whether it is locked.
    AskLocked,
    /// Fail: the target has to be unlocked first.
    Refuse,
    /// Flash the product at this place in the manifest.
    Flash { product: usize },
}

/// The text in an option.
pub open spec fn text_of(text: Option<String>) -> Option<Seq<char>> {
    match text {
        Some(text) => Some(text@),
        None => None,
    }
}

/// Borrows the text in an option.
fn borrowed(text: &Option<String>) -> (result: Option<&str>)
    ensures
        result is Some <==> text is Some,
        result is Some ==> text_of(*text) == Some(result->0@),
{
    match text {
        Some(text) => Some(text.as_str()),
        None => None,
    }
}

impl Partition {
    /// Creates a partition.
    pub fn new(
        name: String,
        file: String,
        variable: Option<String>,
        variable_value: Option<String>,
    ) -> (result: Self)
        ensures
            result == Partition(name, file, variable, variable_value),
    {
        Self(name, file, variable, variable_value)
    }

    /// The partition's name.
    pub fn name(&self) -> (result: &str)
        ensures
            result@ == self.0@,
    {
        self.0.as_str()
    }

    /// The path of the file.
    pub fn file(&self) -> (result: &str)
        ensures
            result@ == self.1@,
    {
        self.1.as_str()
    }

    /// The variable that decides whether the partition is flashed.
    pub fn variable(&self) -> (result: Option<&str>)
        ensures
            result is Some <==> self.2 is Some,
            result is Some ==> text_of(self.2) == Some(result->0@),
    {
        borrowed(&self.2)
    }

    /// The value that the variable must have.
    pub fn variable_value(&self) -> (result: Option<&str>)
        ensures
            result is Some <==> self.3 is Some,
            result is Some ==> text_of(self.3) == Some(result->0@),
    {
        borrowed(&self.3)
    }
}

/// Some product has the name.
pub open spec fn named(products: Seq<Product>, name: Seq<char>) -> bool {
    exists|i: int| 0 <= i < products.len() && (#[trigger] products[i]).name@ == name
}

/// The product at place `i` is the first one with the name.
pub open spec fn first_named(products: Seq<Product>, name: Seq<char>, i: int) -> bool {
    &&& 0 <= i < products.len()
    &&& products[i].name@ == name
    &&& forall|j: int| 0 <= j < i ==> (#[trigger] products[j]).name@ != name
}

/// What to do about the product at place `i`, when it is known whether the target is locked, and
/// when it is not.
pub open spec fn step_for(requires_unlock: bool, locked: Option<bool>, i: usize) -> FlashStep {
    if !requires_unlock || locked == Some(false) {
        FlashStep::Flash { product: i }
    } else if locked is None {
        FlashStep::AskLocked
    } else {
        FlashStep::Refuse
    }
}

impl FlashManifest {
    /// The step is the one to take to flash the product with the name.
    pub open spec fn calls_for(
        self,
        name: Seq<char>,
        locked: Option<bool>,
        step: FlashStep,
    ) -> bool {
        if named(self.0@, name) {
            exists|i: usize| #[trigger]
                first_named(self.0@, name, i as int) && step == step_for(
                    self.0@[i as int].requires_unlock,
                    locked,
                    i,
                )
        } else {
            step == FlashStep::MissingProduct
        }
    }

    /// The place of the first product with a name.
    pub fn find_product(&self, name: &String) -> (result: Option<usize>)
        ensures
            result is Some <==> named(self.0@, name@),
            result is Some ==> first_named(self.0@, name@, result->0 as int),
    {
        let mut i: usize = 0;
        while i < self.0.len()
            invariant
                i <= self.0@.len(),
                forall|j: int| 0 <= j < i ==> (#[trigger] self.0@[j]).name@ != name@,
            decreases self.0@.len() - i,
        {
            if self.0[i].name == *name {
                return Some(i);
            }
            i = i + 1;
        }
        None
    }

    /// The next step to flash the product with a name. `locked` is the target's answer, once it
    /// was asked whether it is locked.
    pub fn flash(&self, name: &String, locked: Option<bool>) -> (result: FlashStep)
        ensures
            self.calls_for(name@, locked, result),
    {
        let i: usize = match self.find_product(name) {
            Some(i) => i,
            None => {
                return FlashStep::MissingProduct;
            },
        };
        assert(first_named(self.0@, name@, i as int));
        if !self.0[i].requires_unlock {
            return FlashStep::Flash { product: i };
        }
        match locked {
            None => FlashStep::AskLocked,
            Some(true) => FlashStep::Refuse,
            Some(false) => FlashStep::Flash { product: i },
        }
    }
}

/// There is one step to take, whatever is known of the target.
pub proof fn one_step_is_called_for(
    manifest: FlashManifest,
    name: Seq<char>,
    locked: Option<bool>,
    one: FlashStep,
    other: FlashStep,
)
    requires
        manifest.calls_for(name, locked, one),
        manifest.calls_for(name, locked, other),
    ensures
        one == other,
{
    if named(manifest.0@, name) {
        let i = choose|i: usize| #[trigger]
            first_named(manifest.0@, name, i as int) && one == step_for(
                manifest.0@[i as int].requires_unlock,
                locked,
                i,
            );
        let j = choose|j: usize| #[trigger]
            first_named(manifest.0@, name, j as int) && other == step_for(
                manifest.0@[j as int].requires_unlock,
                locked,
                j,
            );
        if i < j {
            assert(manifest.0@[i as int].name@ != name);
        } else if j < i {
            assert(manifest.0@[j as int].name@ != name);
        }
    }
}

/// Once the target has answered, it is not asked again. What is flashed has the name that was
/// asked for, and a locked target gets no product that requires it to be unlocked.
pub proof fn locked_targets_are_safe(
    manifest: FlashManifest,
    name: Seq<char>,
    locked: bool,
    step: FlashStep,
)
    requires
        manifest.calls_for(name, Some(locked), step),
    ensures
        step != FlashStep::AskLocked,
        step matches FlashStep::Flash { product } ==> {
            &&& product < manifest.0@.len()
            &&& manifest.0@[product as int].name@ == name
            &&& !(locked && manifest.0@[product as int].requires_unlock)
        },
{
}

/// A product is missing just when none has the name.
pub proof fn products_may_be_missing(
    manifest: FlashManifest,
    name: Seq<char>,
    locked: Option<bool>,
    step: FlashStep,
)
    requires
        manifest.calls_for(name, locked, step),
    ensures
        step is MissingProduct <==> forall|i: int|
            0 <= i < manifest.0@.len() ==> (#[trigger] manifest.0@[i]).name@ != name,
{
    if named(manifest.0@, name) {
        let k = choose|k: int|
            0 <= k < manifest.0@.len() && (#[trigger] manifest.0@[k]).name@ == name;
        assert(manifest.0@[k].name@ == name);
    }
}

/// The first product with the name is flashed if it does not require the target to be unlocked, or
/// if the target is known to be. Otherwise the target is asked first, and refused if it is locked.
pub proof fn first_product_is_flashed(
    manifest: FlashManifest,
    name: Seq<char>,
    locked: Option<bool>,
    step: FlashStep,
    i: int,
)
    requires
        manifest.calls_for(name, locked, step),
        0 <= i < manifest.0@.len(),
        manifest.0@[i].name@ == name,
        forall|j: int| 0 <= j < i ==> (#[trigger] manifest.0@[j]).name@ != name,
    ensures
        ({
            let free = !manifest.0@[i].requires_unlock || locked == Some(false);
            &&& step is Flash <==> free
            &&& step is Flash ==> step->product == i
            &&& step is AskLocked <==> !free && locked is None
            &&& step is Refuse <==> !free && locked == Some(true)
        }),
{
    assert(named(manifest.0@, name));
    match locked {
        Some(true) => {},
        Some(false) => {},
        None => {},
    }
    let k = choose|k: usize| #[trigger]
        first_named(manifest.0@, name, k as int) && step == step_for(
            manifest.0@[k as int].requires_unlock,
            locked,
            k,
        );
    if k < i {
        assert(manifest.0@[k as int].name@ != name);
    } else if i < k {
        assert(manifest.0@[i].name@ != name);
    }
}

/// The place of a product is that of the first one with the name.
pub proof fn first_named_is_first(products: Seq<Product>, name: Seq<char>, i: int)
    ensures
        first_named(products, name, i) <==> 0 <= i < products.len() && products[i].name@ == name
            && forall|j: int| 0 <= j < i ==> (#[trigger] products[j]).name@ != name,
        named(products, name) <==> exists|j: int|
            0 <= j < products.len() && (#[trigger] products[j]).name@ == name,
{
}

/// The text in an option is that of its string.
pub proof fn texts_are_kept(text: Option<String>)
    ensures
        text_of(text) is Some <==> text is Some,
        text is Some ==> text_of(text)->0 == text->0@,
{
}

} // verus!
