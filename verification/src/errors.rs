use vstd::prelude::*;
verus! {

/// The three error kinds every operation of the store reports through.
/// Each carries a human-readable detail string.
#[derive(Debug)]
pub enum DbError {
    MissingFields(String),
    TableNotFound(String),
    BadInput(String),
}

/// Ghost twin of `DbError`: the same three kinds over mathematical strings,
/// used by every contract that pins down which error an operation returns.
pub enum DbErrorView {
    MissingFields(Seq<char>),
    TableNotFound(Seq<char>),
    BadInput(Seq<char>),
}

impl View for DbError {
    type V = DbErrorView;

    open spec fn view(&self) -> DbErrorView {
        match self {
            DbError::MissingFields(m) => DbErrorView::MissingFields(m@),
            DbError::TableNotFound(m) => DbErrorView::TableNotFound(m@),
            DbError::BadInput(m) => DbErrorView::BadInput(m@),
        }
    }
}

/// The view of a unit result: what a shape check returned, at the ghost level.
pub open spec fn unit_res_view(r: Result<(), DbError>) -> Result<(), DbErrorView> {
    match r {
        Ok(()) => Ok(()),
        Err(e) => Err(e@),
    }
}

impl DbError {
    /// The detail string alone, without the kind prefix.
    pub open spec fn detail(&self) -> Seq<char> {
        match self@ {
            DbErrorView::MissingFields(m) => m,
            DbErrorView::TableNotFound(m) => m,
            DbErrorView::BadInput(m) => m,
        }
    }

    /// What `message` returns for a given error, as a mathematical string.
    pub open spec fn spec_message(&self) -> Seq<char> {
        match self@ {
            DbErrorView::MissingFields(m) => "Missing Fields! "@ + m,
            DbErrorView::TableNotFound(m) => "Table Not Found! "@ + m,
            DbErrorView::BadInput(m) => "Bad Input! "@ + m,
        }
    }

    /// The human-readable report: the kind's label followed by the detail.
    pub fn message(&self) -> (r: String)
        ensures
            r@ == self.spec_message(),
    {
        match self {
            DbError::MissingFields(m) => {
                let mut s = String::from_str("Missing Fields! ");
                s.append(m.as_str());
                s
            },
            DbError::TableNotFound(m) => {
                let mut s = String::from_str("Table Not Found! ");
                s.append(m.as_str());
                s
            },
            DbError::BadInput(m) => {
                let mut s = String::from_str("Bad Input! ");
                s.append(m.as_str());
                s
            },
        }
    }
}

} // verus!
