//! The command line that starts the game through Steam, with or without
//! the mod loader.
use crate::archive::{join, join_path};
use vstd::prelude::*;

verus! {

/// Steam's identifier of the game.
pub const GAME_ID: &'static str = "632360";

/// The package that carries the mod loader.
pub const LOADER_PACKAGE: &'static str = "bbepis-BepInExPack";

/// Where the loader's entry assembly lies inside its package directory.
pub const LOADER_ENTRY: &'static str = "BepInExPack/BepInEx/core/BepInEx.Preloader.dll";

/// The loader's entry assembly under `mod_root`.
pub open spec fn loader_path(mod_root: Seq<char>) -> Seq<char> {
    join(join(mod_root, LOADER_PACKAGE@), LOADER_ENTRY@)
}

/// The arguments that make Steam start the game; a modded start also
/// points the doorstop at the loader under `mod_root`.
pub open spec fn steam_args(modded: bool, mod_root: Seq<char>) -> Seq<Seq<char>> {
    let plain = seq!["-applaunch"@, GAME_ID@];
    if modded {
        plain + seq![
            "--doorstop-enable"@,
            "true"@,
            "--doorstop-target"@,
            loader_path(mod_root),
        ]
    } else {
        plain
    }
}

/// The arguments handed to `steam` to start the game.
pub fn launch_args(modded: bool, mod_root: &String) -> (r: Vec<String>)
    ensures
        r@.map_values(|s: String| s@) == steam_args(modded, mod_root@),
{
    let mut r: Vec<String> = Vec::new();
    r.push(String::from_str("-applaunch"));
    r.push(String::from_str(GAME_ID));
    if modded {
        r.push(String::from_str("--doorstop-enable"));
        r.push(String::from_str("true"));
        r.push(String::from_str("--doorstop-target"));
        let dir = join_path(mod_root, LOADER_PACKAGE);
        r.push(join_path(&dir, LOADER_ENTRY));
    }
    assert(r@.map_values(|s: String| s@) =~= steam_args(modded, mod_root@));
    r
}

} // verus!
