//! Poker hand evaluation: playing cards, the ten hand categories with their
//! total strength order, and the detectors that pick the best category a set
//! of cards can form. Around them stand the table's bookkeeping types: a deck
//! to draw from, hands, the board and the rotation of players, and the
//! listing of players' names in prose.

pub mod card;
pub mod tally;
pub mod combo;
pub mod table;
pub mod names;
