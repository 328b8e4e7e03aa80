//! The failures an operation reports to its caller.

use vstd::prelude::*;
use vstd::string::StringExecFns;

verus! {

/// The table a missing row was looked for in.
#[derive(Debug, Clone, Copy, PartialEq, Eq, Structural)]
pub enum EntityKind {
    Project,
    Tree,
    Node,
    Setting,
}

impl EntityKind {
    /// The name of the table's rows in a message.
    pub open spec fn noun_text(self) -> Seq<char> {
        match self {
            EntityKind::Project => "Project"@,
            EntityKind::Tree => "Tree"@,
            EntityKind::Node => "Node"@,
            EntityKind::Setting => "Setting"@,
        }
    }

    /// The name of the table's rows in a message.
    pub fn noun(&self) -> (r: &'static str)
        ensures
            r@ == self.noun_text(),
    {
        match self {
            EntityKind::Project => "Project",
            EntityKind::Tree => "Tree",
            EntityKind::Node => "Node",
            EntityKind::Setting => "Setting",
        }
    }
}

/// Why an operation did not take place.
#[derive(Debug, PartialEq, Eq)]
pub enum AppError {
    /// The row is absent, or its deletion state rules the operation out.
    NotFound(EntityKind, String),
    /// The write would break a key or a reference between tables.
    Conflict,
    /// The physical store behind the tables failed.
    StoreFailure(String),
}

/// An [`AppError`] as plain values.
pub enum AppErrorView {
    NotFound(EntityKind, Seq<char>),
    Conflict,
    StoreFailure(Seq<char>),
}

impl AppErrorView {
    /// The failure of a write that came without the time of the write.
    pub open spec fn no_time() -> AppErrorView {
        AppErrorView::StoreFailure("a write needs the time of the write"@)
    }

    /// The failure in words.
    pub open spec fn message(self) -> Seq<char> {
        match self {
            AppErrorView::NotFound(kind, id) => kind.noun_text() + " "@ + id + " not found"@,
            AppErrorView::Conflict => "the write breaks a key or a reference between tables"@,
            AppErrorView::StoreFailure(reason) => "the store failed: "@ + reason,
        }
    }
}

impl AppError {
    /// The failure of a write that came without the time of the write.
    pub fn no_time() -> (r: AppError)
        ensures
            r@ == AppErrorView::no_time(),
    {
        AppError::StoreFailure(String::from_str("a write needs the time of the write"))
    }

    /// The failure in words, for a caller to show.
    pub fn message(&self) -> (r: String)
        ensures
            r@ == self@.message(),
    {
        match self {
            AppError::NotFound(kind, id) => {
                let mut text = String::from_str(kind.noun());
                text.append(" ");
                text.append(id.as_str());
                text.append(" not found");
                text
            },
            AppError::Conflict => String::from_str(
                "the write breaks a key or a reference between tables",
            ),
            AppError::StoreFailure(reason) => {
                let mut text = String::from_str("the store failed: ");
                text.append(reason.as_str());
                text
            },
        }
    }
}

impl View for AppError {
    type V = AppErrorView;

    open spec fn view(&self) -> AppErrorView {
        match self {
            AppError::NotFound(kind, id) => AppErrorView::NotFound(*kind, id@),
            AppError::Conflict => AppErrorView::Conflict,
            AppError::StoreFailure(reason) => AppErrorView::StoreFailure(reason@),
        }
    }
}

/// What a caller sees of a result, as plain values.
pub open spec fn shown<T: View>(r: Result<T, AppError>) -> Result<T::V, AppErrorView> {
    match r {
        Ok(v) => Ok(v@),
        Err(e) => Err(e@),
    }
}

/// What a caller sees of a listing, as plain values.
pub open spec fn shown_rows<T: View>(r: Result<Vec<T>, AppError>) -> Result<Seq<T::V>, AppErrorView> {
    match r {
        Ok(rows) => Ok(crate::models::views(rows@)),
        Err(e) => Err(e@),
    }
}

impl Clone for AppError {
    fn clone(&self) -> (r: Self)
        ensures
            r == *self,
    {
        match self {
            AppError::NotFound(kind, id) => AppError::NotFound(*kind, id.clone()),
            AppError::Conflict => AppError::Conflict,
            AppError::StoreFailure(reason) => AppError::StoreFailure(reason.clone()),
        }
    }
}

} // verus!
