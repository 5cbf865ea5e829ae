//! Sample puzzles with their solutions, in text form.

use vstd::prelude::*;

verus! {

/// An easy puzzle.
pub const SIMPLE: &'static str =
    "289____4_1____4_____52____68_____491____7____634_____79____21_____3____2_2____539";

/// The one solution of [`SIMPLE`].
pub const SIMPLE_SOLUTION: &'static str =
    "289613745167954328345287916872536491591478263634129857953762184418395672726841539";

/// A hard puzzle.
pub const HARD: &'static str =
    "___567__32____3_1___________9_6____8__1___2__87___2_9_1_________357_1___72984___5";

/// The one solution of [`HARD`].
pub const HARD_SOLUTION: &'static str =
    "918567423257483916643129587592614378361978254874352691186235749435791862729846135";

/// A puzzle made to be hard for backtracking solvers.
pub const EXTREME: &'static str =
    "________1_8__5_76_6____4_3______7__2___3_____7___8_6____6_7_98_85_4___1_97_______";

/// The one solution of [`EXTREME`].
pub const EXTREME_SOLUTION: &'static str =
    "395768421184253769627914835518647392469325178732189654246571983853496217971832546";

} // verus!
