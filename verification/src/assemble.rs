//! The invocation assembler: joins header lines and trailing arguments
//! into the command a shell will run, and pairs it with the one
//! environment binding that points the command at the payload file.

use vstd::prelude::*;

verus! {

/// The byte that separates joined pieces.
pub const SPACE: u8 = 32;

/// The pieces joined with a single space between neighbours.
pub open spec fn joined(pieces: Seq<Seq<u8>>) -> Seq<u8>
    decreases pieces.len(),
{
    if pieces.len() == 0 {
        Seq::empty()
    } else if pieces.len() == 1 {
        pieces[0]
    } else {
        pieces[0] + seq![SPACE] + joined(pieces.skip(1))
    }
}

/// The command the shell runs: the joined header directly followed by
/// the joined trailing arguments.
pub open spec fn spec_command(head: Seq<Seq<u8>>, args: Seq<Seq<u8>>) -> Seq<u8> {
    joined(head) + joined(args)
}

/// Joining one more piece appends a space and the piece, unless nothing
/// was joined yet.
proof fn lemma_joined_push(pieces: Seq<Seq<u8>>, x: Seq<u8>)
    ensures
        pieces.len() == 0 ==> joined(pieces.push(x)) == x,
        pieces.len() > 0 ==> joined(pieces.push(x)) == joined(pieces) + seq![SPACE] + x,
    decreases pieces.len(),
{
    if pieces.len() == 0 {
        assert(pieces.push(x)[0] == x);
    } else {
        lemma_joined_push(pieces.skip(1), x);
        assert(pieces.push(x).skip(1) =~~= pieces.skip(1).push(x));
        assert(pieces.push(x)[0] == pieces[0]);
        if pieces.len() == 1 {
            assert(joined(pieces.push(x)) =~= pieces[0] + seq![SPACE] + x);
        } else {
            assert(joined(pieces.push(x)) =~= joined(pieces) + seq![SPACE] + x);
        }
    }
}

/// The pieces joined with a single space between neighbours, as bytes.
pub fn join_pieces(pieces: &Vec<Vec<u8>>) -> (r: Vec<u8>)
    ensures
        r@ == joined(pieces@.map_values(|l: Vec<u8>| l@)),
{
    let ghost m = pieces@.map_values(|l: Vec<u8>| l@);
    let mut r: Vec<u8> = Vec::new();
    let mut idx: usize = 0;
    proof {
        assert(m.take(0) =~~= Seq::<Seq<u8>>::empty());
    }
    while idx < pieces.len()
        invariant
            idx <= pieces.len(),
            m == pieces@.map_values(|l: Vec<u8>| l@),
            r@ == joined(m.take(idx as int)),
        decreases pieces.len() - idx,
    {
        proof {
            lemma_joined_push(m.take(idx as int), m[idx as int]);
            assert(m.take(idx as int).push(m[idx as int]) =~~= m.take(idx as int + 1));
        }
        if idx > 0 {
            r.push(SPACE);
        }
        let piece = &pieces[idx];
        r.extend_from_slice(piece.as_slice());
        proof {
            assert(r@ =~= joined(m.take(idx as int + 1)));
        }
        idx += 1;
    }
    proof {
        assert(m.take(pieces@.len() as int) =~~= m);
    }
    r
}

/// The full command: the joined header lines directly followed by the
/// joined trailing arguments.
pub fn assemble_command(head: &Vec<Vec<u8>>, args: &Vec<Vec<u8>>) -> (r: Vec<u8>)
    ensures
        r@ == spec_command(
            head@.map_values(|l: Vec<u8>| l@),
            args@.map_values(|l: Vec<u8>| l@),
        ),
{
    let mut r = join_pieces(head);
    let tail_args = join_pieces(args);
    r.extend_from_slice(tail_args.as_slice());
    r
}

/// The name of the environment variable that carries the payload path
/// when no other name is configured.
pub open spec fn default_env_name() -> Seq<char> {
    "RUNT_TAIL"@
}

/// What the excluded command-line collaborator hands the core: the name
/// of the environment variable for the payload path, whether to keep the
/// payload file, and whether to trace verbosely.
pub struct Config {
    pub env_for_tail: String,
    pub keep: bool,
    pub verbose: bool,
}

impl Default for Config {
    /// The configuration used when no flag says otherwise.
    fn default() -> (c: Config)
        ensures
            c.env_for_tail@ == default_env_name(),
            !c.keep,
            !c.verbose,
    {
        Config { env_for_tail: "RUNT_TAIL".to_owned(), keep: false, verbose: false }
    }
}

/// One invocation, constructed once and consumed once: the command the
/// shell runs and the single environment binding that points it at the
/// payload file.
pub struct Invocation {
    pub command: Vec<u8>,
    pub env_name: String,
    pub env_value: String,
}

impl Invocation {
    /// Composes the command from the header lines and the trailing
    /// arguments, and binds the configured environment variable to the
    /// payload file's path.
    pub fn new(
        head: &Vec<Vec<u8>>,
        args: &Vec<Vec<u8>>,
        config: &Config,
        payload_path: String,
    ) -> (inv: Invocation)
        ensures
            inv.command@ == spec_command(
                head@.map_values(|l: Vec<u8>| l@),
                args@.map_values(|l: Vec<u8>| l@),
            ),
            inv.env_name@ == config.env_for_tail@,
            inv.env_value@ == payload_path@,
    {
        Invocation {
            command: assemble_command(head, args),
            env_name: config.env_for_tail.clone(),
            env_value: payload_path,
        }
    }
}

} // verus!
