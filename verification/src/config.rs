//! Tool configuration: the notebook root and the editor command, built once
//! from environment values handed in by the binary.

use vstd::prelude::*;

verus! {

/// The directory name appended to the home directory, `/notebook`.
pub open spec fn notebook_suffix() -> Seq<u8> {
    seq![
        '/' as u8,
        'n' as u8,
        'o' as u8,
        't' as u8,
        'e' as u8,
        'b' as u8,
        'o' as u8,
        'o' as u8,
        'k' as u8,
    ]
}

/// The editor used when the environment names none, `nvim`.
pub open spec fn default_editor() -> Seq<u8> {
    seq!['n' as u8, 'v' as u8, 'i' as u8, 'm' as u8]
}

/// The notebook root and the editor command.
#[derive(Clone, Debug)]
pub struct Config {
    pub root: Vec<u8>,
    pub editor: Vec<u8>,
}

impl Config {
    /// Builds the configuration from environment values: the notebook root is
    /// the `notebook` directory under `home`, and the editor is the given one,
    /// falling back to `nvim`.
    pub fn from_env(home: Vec<u8>, editor: Option<Vec<u8>>) -> (r: Config)
        ensures
            r.root@ == home@ + notebook_suffix(),
            match editor {
                Some(e) => r.editor@ == e@,
                None => r.editor@ == default_editor(),
            },
    {
        let mut root = home;
        let suffix: Vec<u8> = vec![
            '/' as u8,
            'n' as u8,
            'o' as u8,
            't' as u8,
            'e' as u8,
            'b' as u8,
            'o' as u8,
            'o' as u8,
            'k' as u8,
        ];
        proof {
            assert(suffix@ =~= notebook_suffix());
        }
        crate::lines::push_bytes(&mut root, &suffix);
        let editor = match editor {
            Some(e) => e,
            None => {
                let v: Vec<u8> = vec!['n' as u8, 'v' as u8, 'i' as u8, 'm' as u8];
                proof {
                    assert(v@ =~= default_editor());
                }
                v
            },
        };
        Config { root, editor }
    }
}

} // verus!
