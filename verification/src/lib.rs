pub mod activity_list;
pub mod card_data;
pub mod card_distribution;
pub mod clicker_data;
pub mod clock;
pub mod dates;
pub mod model;
pub mod output;
pub mod pairing;
pub mod parsers;
pub mod text;
pub mod timestamp_traits;
