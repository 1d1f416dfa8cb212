//! Validation errors raised while turning a configured schema into a
//! validated one. Each names the offending category and value, enough for a
//! caller to render a precise diagnostic.

use vstd::prelude::*;

verus! {

/// The first violation found by schema validation, in check order.
#[derive(Clone, Debug, Eq, PartialEq)]
pub enum Error {
    EmptyStringNotValidTag,
    EmptyDelimiter,
    InvalidCharacterInTag(char),
    InvalidCharacterInDelim(char),
    DelimiterFoundInTag { category_name: String, tag: String },
    CategoryWithNoTags { category_name: String },
    TagsMustBeUnique { category_name: String, duplicated_tag: String },
}

/// Mathematical image of an [`Error`].
#[verifier::ext_equal]
pub ghost enum ErrorView {
    EmptyStringNotValidTag,
    EmptyDelimiter,
    InvalidCharacterInTag(char),
    InvalidCharacterInDelim(char),
    DelimiterFoundInTag { category_name: Seq<char>, tag: Seq<char> },
    CategoryWithNoTags { category_name: Seq<char> },
    TagsMustBeUnique { category_name: Seq<char>, duplicated_tag: Seq<char> },
}

impl View for Error {
    type V = ErrorView;

    open spec fn view(&self) -> ErrorView {
        match self {
            Error::EmptyStringNotValidTag => ErrorView::EmptyStringNotValidTag,
            Error::EmptyDelimiter => ErrorView::EmptyDelimiter,
            Error::InvalidCharacterInTag(c) => ErrorView::InvalidCharacterInTag(*c),
            Error::InvalidCharacterInDelim(c) => ErrorView::InvalidCharacterInDelim(*c),
            Error::DelimiterFoundInTag { category_name, tag } => ErrorView::DelimiterFoundInTag {
                category_name: category_name@,
                tag: tag@,
            },
            Error::CategoryWithNoTags { category_name } => ErrorView::CategoryWithNoTags {
                category_name: category_name@,
            },
            Error::TagsMustBeUnique { category_name, duplicated_tag } => {
                ErrorView::TagsMustBeUnique {
                    category_name: category_name@,
                    duplicated_tag: duplicated_tag@,
                }
            },
        }
    }
}

} // verus!
