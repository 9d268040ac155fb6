//! Identifiers, records and errors shared across the library.

use crate::logic::text::{decimal, decimal_string};
use vstd::prelude::*;
use vstd::std_specs::convert::FromSpecImpl;

verus! {

/// Identifier of a category, as stored.
#[derive(Debug, Clone, Copy, PartialEq, Eq, Hash, Structural)]
pub struct CategoryID(pub i64);

/// Identifier of an item, as stored.
#[derive(Debug, Clone, Copy, PartialEq, Eq, Hash, Structural)]
pub struct ItemID(pub i64);

/// Identifier of a recipe, as stored.
#[derive(Debug, Clone, Copy, PartialEq, Eq, Hash, Structural)]
pub struct RecipeID(pub i64);

/// Version of the storage schema.
#[derive(Debug, Clone, Copy, PartialEq, Eq, Structural)]
pub struct DBVersion(pub i64);

/// What a category holds besides its identifier.
#[derive(Debug, Clone, PartialEq)]
pub struct CategoryBody {
    pub name: String,
}

/// A category with its identifier. Two categories are equal when their identifiers are.
#[derive(Debug, Clone)]
pub struct Category {
    pub id: CategoryID,
    pub body: CategoryBody,
}

/// Selection of categories; it selects every category.
#[derive(Debug)]
pub struct CategoryFilter {}

impl PartialEq for Category {
    fn eq(&self, other: &Self) -> (r: bool) {
        self.id.0 == other.id.0
    }
}

impl vstd::std_specs::cmp::PartialEqSpecImpl for Category {
    open spec fn obeys_eq_spec() -> bool {
        true
    }

    open spec fn eq_spec(&self, other: &Self) -> bool {
        self.id == other.id
    }
}

impl Default for CategoryBody {
    fn default() -> (r: Self)
        ensures
            r.name@ == "Invalid Category"@,
    {
        CategoryBody { name: String::from_str("Invalid Category") }
    }
}

/// One ingredient of a recipe: a category that any of its items satisfies,
/// and how much of it; the library carries the quantity without reading it.
#[derive(Debug, Clone, Copy)]
pub struct Ingredient<Q> {
    pub category: CategoryID,
    pub quantity: Q,
}

/// What a recipe holds besides its identifier.
#[derive(Debug, Clone)]
pub struct RecipeBody<Q> {
    pub name: String,
    pub ingredients: Vec<Ingredient<Q>>,
}

/// A recipe with its identifier. Two recipes are equal when their identifiers are.
#[derive(Debug, Clone)]
pub struct Recipe<Q> {
    pub id: RecipeID,
    pub body: RecipeBody<Q>,
}

impl<Q> PartialEq for Recipe<Q> {
    fn eq(&self, other: &Self) -> (r: bool) {
        self.id.0 == other.id.0
    }
}

impl<Q> vstd::std_specs::cmp::PartialEqSpecImpl for Recipe<Q> {
    open spec fn obeys_eq_spec() -> bool {
        true
    }

    open spec fn eq_spec(&self, other: &Self) -> bool {
        self.id == other.id
    }
}

impl<Q> Default for RecipeBody<Q> {
    fn default() -> (r: Self)
        ensures
            r.name@ == "Invalid Recipe"@,
            r.ingredients@ == Seq::<Ingredient<Q>>::empty(),
    {
        RecipeBody { name: String::from_str("Invalid Recipe"), ingredients: Vec::new() }
    }
}

impl<Q: Copy> RecipeBody<Q> {
    /// A copy of the body: the same name and the same ingredients.
    pub(crate) fn copied(&self) -> (r: Self)
        ensures
            r.name@ == self.name@,
            r.ingredients@ == self.ingredients@,
    {
        let mut ingredients: Vec<Ingredient<Q>> = Vec::new();
        let n = self.ingredients.len();
        let mut i: usize = 0;
        while i < n
            invariant
                n == self.ingredients@.len(),
                i <= n,
                ingredients@ == self.ingredients@.take(i as int),
            decreases n - i,
        {
            ingredients.push(self.ingredients[i]);
            proof {
                assert(ingredients@ =~= self.ingredients@.take(i + 1));
            }
            i = i + 1;
        }
        proof {
            assert(ingredients@ =~= self.ingredients@);
        }
        RecipeBody { name: self.name.clone(), ingredients }
    }
}

/// Errors of the rules that the library enforces.
#[derive(Debug, Clone, Copy, PartialEq, Eq, Structural)]
pub enum LogicError {
    InvalidCategoryRelation { parent: CategoryID, child: CategoryID },
    InvalidCategory(CategoryID),
    InvalidItem(ItemID),
    InvalidRecipe(RecipeID),
    CategoryNotInGraph(CategoryID),
}

/// Errors of the storage layer.
#[derive(Debug, Clone, PartialEq)]
pub enum DBError {
    NotABartendDB,
    FutureSchema { found: DBVersion, supported: DBVersion },
    RestrictViolation,
    InvalidUnit,
    External(String),
}

/// Errors in locating or reading the configuration.
#[derive(Debug, Clone, Copy, PartialEq, Eq, Structural)]
pub enum ConfigError {
    UnableToAccessSystemConfigDir,
    UnableToAccessSystemDataDir,
    ReadError,
    WriteError,
    UnableToAccessConfigFile,
    UnableToCreateConfigFile,
    UnableToCreateDataDir,
}

/// Any error the application reports.
#[derive(Debug, Clone)]
pub enum BartendError {
    Logic(LogicError),
    Db(DBError),
    Config(ConfigError),
}

impl From<DBError> for BartendError {
    fn from(value: DBError) -> (r: Self) {
        BartendError::Db(value)
    }
}

impl FromSpecImpl<DBError> for BartendError {
    open spec fn obeys_from_spec() -> bool {
        true
    }

    open spec fn from_spec(v: DBError) -> Self {
        BartendError::Db(v)
    }
}

impl From<LogicError> for BartendError {
    fn from(value: LogicError) -> (r: Self) {
        BartendError::Logic(value)
    }
}

impl FromSpecImpl<LogicError> for BartendError {
    open spec fn obeys_from_spec() -> bool {
        true
    }

    open spec fn from_spec(v: LogicError) -> Self {
        BartendError::Logic(v)
    }
}

/// `head` followed by the decimal form of `id`.
fn with_number(head: &str, id: i64) -> (r: String)
    ensures
        r@ == head@ + decimal(id as int),
{
    let mut s = head.to_owned();
    let number = decimal_string(id);
    s.append(number.as_str());
    s
}

/// The text shown for a rule violation.
pub open spec fn logic_error_text(e: LogicError) -> Seq<char> {
    "LOGIC ERROR: "@ + match e {
        LogicError::InvalidCategoryRelation { parent, child } => "Category Edge "@ + decimal(
            parent.0 as int,
        ) + " to "@ + decimal(child.0 as int) + " would create loop!"@,
        LogicError::InvalidCategory(id) => "invalid Category "@ + decimal(id.0 as int),
        LogicError::InvalidItem(id) => "invalid Item "@ + decimal(id.0 as int),
        LogicError::InvalidRecipe(id) => "invalid Recipe "@ + decimal(id.0 as int),
        LogicError::CategoryNotInGraph(id) => "Category not in graph "@ + decimal(id.0 as int),
    }
}

/// The text shown for a storage error.
pub open spec fn db_error_text(e: DBError) -> Seq<char> {
    "DB ERROR: "@ + match e {
        DBError::External(error) => "External DB Error: "@ + error@,
        DBError::RestrictViolation => "Attempted to delete Restricted Value"@,
        DBError::NotABartendDB => "Attempted to read a DB from another application"@,
        DBError::FutureSchema { found, supported } => "Attempted to read db from version "@
            + decimal(found.0 as int) + " of Bartend. Only version "@ + decimal(
            supported.0 as int,
        ) + " is supported"@,
        DBError::InvalidUnit => "Attempted to read invalid unit"@,
    }
}

/// The text shown for a configuration error: the name of the case.
pub open spec fn config_error_text(e: ConfigError) -> Seq<char> {
    match e {
        ConfigError::UnableToAccessSystemConfigDir => "UnableToAccessSystemConfigDir"@,
        ConfigError::UnableToAccessSystemDataDir => "UnableToAccessSystemDataDir"@,
        ConfigError::ReadError => "ReadError"@,
        ConfigError::WriteError => "WriteError"@,
        ConfigError::UnableToAccessConfigFile => "UnableToAccessConfigFile"@,
        ConfigError::UnableToCreateConfigFile => "UnableToCreateConfigFile"@,
        ConfigError::UnableToCreateDataDir => "UnableToCreateDataDir"@,
    }
}

impl LogicError {
    /// The text shown for the error.
    pub fn message(&self) -> (r: String)
        ensures
            r@ == logic_error_text(*self),
    {
        let mut s = String::from_str("LOGIC ERROR: ");
        let detail = match self {
            LogicError::InvalidCategoryRelation { parent, child } => {
                let mut d = with_number("Category Edge ", parent.0);
                let rest = with_number(" to ", child.0);
                d.append(rest.as_str());
                d.append(" would create loop!");
                d
            },
            LogicError::InvalidCategory(id) => with_number("invalid Category ", id.0),
            LogicError::InvalidItem(id) => with_number("invalid Item ", id.0),
            LogicError::InvalidRecipe(id) => with_number("invalid Recipe ", id.0),
            LogicError::CategoryNotInGraph(id) => with_number("Category not in graph ", id.0),
        };
        s.append(detail.as_str());
        s
    }
}

impl DBError {
    /// The text shown for the error.
    pub fn message(&self) -> (r: String)
        ensures
            r@ == db_error_text(*self),
    {
        let mut s = String::from_str("DB ERROR: ");
        let detail = match self {
            DBError::External(error) => {
                let mut d = String::from_str("External DB Error: ");
                d.append(error.as_str());
                d
            },
            DBError::RestrictViolation => String::from_str("Attempted to delete Restricted Value"),
            DBError::NotABartendDB => String::from_str(
                "Attempted to read a DB from another application",
            ),
            DBError::FutureSchema { found, supported } => {
                let mut d = with_number("Attempted to read db from version ", found.0);
                let rest = with_number(" of Bartend. Only version ", supported.0);
                d.append(rest.as_str());
                d.append(" is supported");
                d
            },
            DBError::InvalidUnit => String::from_str("Attempted to read invalid unit"),
        };
        s.append(detail.as_str());
        s
    }

    /// The error that a failed storage call stands for: a violated constraint
    /// is a refused deletion of a restricted value; anything else is passed on
    /// with the text that storage gave.
    pub fn from_failure(constraint_violation: bool, text: String) -> (r: DBError)
        ensures
            r == if constraint_violation {
                DBError::RestrictViolation
            } else {
                DBError::External(text)
            },
    {
        if constraint_violation {
            DBError::RestrictViolation
        } else {
            DBError::External(text)
        }
    }
}

impl ConfigError {
    /// The text shown for the error.
    pub fn message(&self) -> (r: String)
        ensures
            r@ == config_error_text(*self),
    {
        match self {
            ConfigError::UnableToAccessSystemConfigDir => String::from_str(
                "UnableToAccessSystemConfigDir",
            ),
            ConfigError::UnableToAccessSystemDataDir => String::from_str(
                "UnableToAccessSystemDataDir",
            ),
            ConfigError::ReadError => String::from_str("ReadError"),
            ConfigError::WriteError => String::from_str("WriteError"),
            ConfigError::UnableToAccessConfigFile => String::from_str("UnableToAccessConfigFile"),
            ConfigError::UnableToCreateConfigFile => String::from_str("UnableToCreateConfigFile"),
            ConfigError::UnableToCreateDataDir => String::from_str("UnableToCreateDataDir"),
        }
    }
}

impl BartendError {
    /// The text shown for the error: that of the error it carries.
    pub fn message(&self) -> (r: String)
        ensures
            r@ == match *self {
                BartendError::Logic(e) => logic_error_text(e),
                BartendError::Db(e) => db_error_text(e),
                BartendError::Config(e) => config_error_text(e),
            },
    {
        match self {
            BartendError::Logic(e) => e.message(),
            BartendError::Db(e) => e.message(),
            BartendError::Config(e) => e.message(),
        }
    }
}

} // verus!
