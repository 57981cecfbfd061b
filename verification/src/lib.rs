//! Der Verlauf der zuletzt diktierten Sätze: was aufgehoben, gekürzt,
//! gelöscht und zurückgeholt wird, und wie die Seite darüber aussieht.

pub mod eintrag;
pub mod seite;
pub mod text;
pub mod uhr;
pub mod verlauf;
