//! The game's configuration, as the rest of the client reads it.
//!
//! Only the pure settings model lives here: paths are held as their
//! segments, and the process-wide configuration slot that the host keeps
//! behind a lock is modeled as an explicit `Option` handed in by the caller.
//! Reading the configuration file from disk, and writing it back, is the
//! host's job.

use vstd::prelude::*;

verus! {

/// The game's persisted configuration. Paths are segment lists (`["." ,
/// "Main.cfg"]` stands for `./Main.cfg`).
#[derive(Debug, PartialEq, Eq)]
pub struct GameConfig {
    /// Path of the configuration file itself.
    pub config_file: Vec<String>,
    /// Directory the song library is read from.
    pub songs_path: Vec<String>,
    /// Name of the active skin.
    pub skin: String,
}

impl Default for GameConfig {
    /// The configuration a fresh installation runs with: `./Main.cfg`,
    /// songs under `./songs`, and the skin named `Default`.
    fn default() -> (r: Self)
        ensures
            r.config_file@.len() == 2,
            r.config_file@[0]@ == "."@,
            r.config_file@[1]@ == "Main.cfg"@,
            r.songs_path@.len() == 2,
            r.songs_path@[0]@ == "."@,
            r.songs_path@[1]@ == "songs"@,
            r.skin@ == "Default"@,
    {
        let mut config_file: Vec<String> = Vec::new();
        config_file.push(".".to_owned());
        config_file.push("Main.cfg".to_owned());
        let mut songs_path: Vec<String> = Vec::new();
        songs_path.push(".".to_owned());
        songs_path.push("songs".to_owned());
        GameConfig { config_file, songs_path, skin: "Default".to_owned() }
    }
}

impl GameConfig {
    /// The running game's configuration, read from the process-wide slot the
    /// host owns: the configuration while the slot is initialized, `None`
    /// before initialization.
    pub fn get(instance: &Option<GameConfig>) -> (r: Option<&GameConfig>)
        ensures
            match r {
                Some(c) => *instance == Some(*c),
                None => *instance is None,
            },
    {
        match instance {
            Some(c) => Some(c),
            None => None,
        }
    }

    /// The running game's configuration, borrowed for writing from the
    /// process-wide slot the host owns: a mutable borrow of the
    /// configuration while the slot is initialized, `None` before
    /// initialization. Whatever the caller writes through the borrow is what
    /// the slot holds afterwards; an uninitialized slot stays uninitialized.
    pub fn get_mut(instance: &mut Option<GameConfig>) -> (r: Option<&mut GameConfig>)
        ensures
            match r {
                Some(c) => *old(instance) == Some(*c) && *final(instance) == Some(*final(c)),
                None => *old(instance) is None && *final(instance) is None,
            },
    {
        match instance {
            Some(c) => Some(c),
            None => None,
        }
    }

    /// Path of the active skin's configuration file: beside the main
    /// configuration file, under `skins/<skin>/skin_config.cfg`.
    pub fn skin_config_path(&self) -> (r: Vec<String>)
        ensures
            ({
                let base = if self.config_file@.len() > 0 {
                    self.config_file@.drop_last()
                } else {
                    self.config_file@
                };
                &&& r@.len() == base.len() + 3
                &&& forall|i: int| 0 <= i < base.len() ==> r@[i] == base[i]
                &&& r@[base.len() as int]@ == "skins"@
                &&& r@[base.len() as int + 1] == self.skin
                &&& r@[base.len() as int + 2]@ == "skin_config.cfg"@
            }),
    {
        let n = self.config_file.len();
        let keep = if n > 0 {
            n - 1
        } else {
            0
        };
        let mut r: Vec<String> = Vec::new();
        let mut i: usize = 0;
        while i < keep
            invariant
                keep <= self.config_file@.len(),
                i <= keep,
                r@.len() == i,
                forall|k: int| 0 <= k < i ==> r@[k] == self.config_file@[k],
            decreases keep - i,
        {
            r.push(self.config_file[i].clone());
            i = i + 1;
        }
        r.push("skins".to_owned());
        r.push(self.skin.clone());
        r.push("skin_config.cfg".to_owned());
        r
    }
}

} // verus!
