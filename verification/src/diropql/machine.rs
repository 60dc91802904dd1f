//! The tape machine that runs instruction programs.
use vstd::prelude::*;

verus! {

/// The number of cells on the tape; the pointer wraps around at both ends.
pub const MEMORY_SIZE: usize = 10000;

/// A tape of zeros.
pub open spec fn blank_tape() -> Seq<u8> {
    Seq::new(MEMORY_SIZE as nat, |i: int| 0u8)
}

/// Where the loop that opens at or before `ip` closes: the first position
/// behind `ip` at which the nesting `depth` falls to zero, or the length
/// of the program if there is none.
pub open spec fn seek_forward(prog: Seq<u8>, ip: int, depth: int) -> int
    decreases prog.len() - ip,
{
    let j = ip + 1;
    if j < 0 || j >= prog.len() {
        prog.len() as int
    } else {
        let d = if prog[j] == 112 {
            depth + 1
        } else if prog[j] == 113 {
            depth - 1
        } else {
            depth
        };
        if d == 0 {
            j
        } else {
            seek_forward(prog, j, d)
        }
    }
}

/// Where the loop that closes at or behind `ip` opens: the first position
/// before `ip` at which the nesting `depth` falls to zero, or -1 if there
/// is none.
pub open spec fn seek_backward(prog: Seq<u8>, ip: int, depth: int) -> int
    decreases ip,
{
    let j = ip - 1;
    if j < 0 || j >= prog.len() {
        -1
    } else {
        let d = if prog[j] == 113 {
            depth + 1
        } else if prog[j] == 112 {
            depth - 1
        } else {
            depth
        };
        if d == 0 {
            j
        } else {
            seek_backward(prog, j, d)
        }
    }
}

/// The cell value after `i`.
pub open spec fn bump(v: u8) -> u8 {
    if v == 255 {
        0
    } else {
        (v + 1) as u8
    }
}

/// The cell value after `d`.
pub open spec fn drop_one(v: u8) -> u8 {
    if v == 0 {
        255
    } else {
        (v - 1) as u8
    }
}

/// What the program prints from the given state within `fuel`
/// instructions: `l` and `r` move the pointer around the tape, `i` and `d`
/// change the cell with wrap-around, `o` prints it, `p` skips behind the
/// matching `q` when the cell is zero, `q` goes back behind the matching
/// `p` when it is not, and any other byte does nothing. Nothing is printed
/// by a program that is still running when the fuel is spent, or that
/// looks for a bracket that is not there.
pub open spec fn run_spec(
    prog: Seq<u8>,
    cells: Seq<u8>,
    mp: int,
    ip: int,
    out: Seq<u8>,
    fuel: nat,
) -> Option<Seq<u8>>
    decreases fuel,
{
    if ip >= prog.len() {
        Some(out)
    } else if fuel == 0 {
        None
    } else {
        let c = prog[ip];
        let rest = (fuel - 1) as nat;
        if c == 108 {
            run_spec(prog, cells, (mp + MEMORY_SIZE - 1) % (MEMORY_SIZE as int), ip + 1, out, rest)
        } else if c == 114 {
            run_spec(prog, cells, (mp + 1) % (MEMORY_SIZE as int), ip + 1, out, rest)
        } else if c == 105 {
            run_spec(prog, cells.update(mp, bump(cells[mp])), mp, ip + 1, out, rest)
        } else if c == 100 {
            run_spec(prog, cells.update(mp, drop_one(cells[mp])), mp, ip + 1, out, rest)
        } else if c == 111 {
            run_spec(prog, cells, mp, ip + 1, out.push(cells[mp]), rest)
        } else if c == 112 && cells[mp] == 0 {
            let j = seek_forward(prog, ip, 1);
            if j >= prog.len() {
                None
            } else {
                run_spec(prog, cells, mp, j + 1, out, rest)
            }
        } else if c == 113 && cells[mp] != 0 {
            let j = seek_backward(prog, ip, 1);
            if j < 0 {
                None
            } else {
                run_spec(prog, cells, mp, j + 1, out, rest)
            }
        } else {
            run_spec(prog, cells, mp, ip + 1, out, rest)
        }
    }
}

/// What the program prints from a blank tape within `fuel` instructions.
pub open spec fn output_of(prog: Seq<u8>, fuel: nat) -> Option<Seq<u8>> {
    run_spec(prog, blank_tape(), 0, 0, Seq::empty(), fuel)
}

/// The position of the `q` that closes the loop opened at `ip`.
fn find_close(prog: &[u8], ip: usize) -> (j: usize)
    requires
        ip < prog@.len(),
    ensures
        j == seek_forward(prog@, ip as int, 1),
        ip < j <= prog@.len(),
{
    let n = prog.len();
    let mut j: usize = ip;
    let mut depth: usize = 1;
    while depth > 0 && j + 1 < n
        invariant
            n == prog.len(),
            ip <= j < n,
            depth <= j - ip + 1,
            depth > 0 ==> seek_forward(prog@, ip as int, 1) == seek_forward(
                prog@,
                j as int,
                depth as int,
            ),
            depth == 0 ==> seek_forward(prog@, ip as int, 1) == j && j > ip,
        decreases n - j,
    {
        j = j + 1;
        if prog[j] == 112 {
            depth = depth + 1;
        } else if prog[j] == 113 {
            depth = depth - 1;
        }
    }
    if depth > 0 {
        n
    } else {
        j
    }
}

/// The position of the `p` that opens the loop closed at `ip`.
fn find_open(prog: &[u8], ip: usize) -> (j: Option<usize>)
    requires
        ip < prog@.len(),
    ensures
        match j {
            Some(k) => k == seek_backward(prog@, ip as int, 1) && k < ip,
            None => seek_backward(prog@, ip as int, 1) < 0,
        },
{
    let mut j: usize = ip;
    let mut depth: usize = 1;
    while depth > 0 && j > 0
        invariant
            j <= ip < prog@.len(),
            depth <= ip - j + 1,
            depth > 0 ==> seek_backward(prog@, ip as int, 1) == seek_backward(
                prog@,
                j as int,
                depth as int,
            ),
            depth == 0 ==> seek_backward(prog@, ip as int, 1) == j && j < ip,
        decreases j,
    {
        j = j - 1;
        if prog[j] == 113 {
            depth = depth + 1;
        } else if prog[j] == 112 {
            depth = depth - 1;
        }
    }
    if depth > 0 {
        None
    } else {
        Some(j)
    }
}

/// Runs `prog` on a blank tape for at most `max_steps` instructions and
/// returns what it printed, if it came to its end.
pub fn read_diropql(prog: &[u8], max_steps: usize) -> (res: Option<Vec<u8>>)
    ensures
        match res {
            Some(out) => output_of(prog@, max_steps as nat) == Some(out@),
            None => output_of(prog@, max_steps as nat) is None,
        },
{
    let n = prog.len();
    let mut memory: Vec<u8> = Vec::new();
    let mut k: usize = 0;
    while k < MEMORY_SIZE
        invariant
            k <= MEMORY_SIZE,
            memory.len() == k,
            forall|i: int| 0 <= i < k ==> memory@[i] == 0,
        decreases MEMORY_SIZE - k,
    {
        memory.push(0u8);
        k = k + 1;
    }
    assert(memory@ =~= blank_tape());
    let mut mp: usize = 0;
    let mut ip: usize = 0;
    let mut out: Vec<u8> = Vec::new();
    let mut fuel: usize = max_steps;
    while ip < n
        invariant
            n == prog.len(),
            memory.len() == MEMORY_SIZE,
            mp < MEMORY_SIZE,
            ip <= n,
            output_of(prog@, max_steps as nat) == run_spec(
                prog@,
                memory@,
                mp as int,
                ip as int,
                out@,
                fuel as nat,
            ),
        decreases fuel,
    {
        if fuel == 0 {
            return None;
        }
        fuel = fuel - 1;
        let c = prog[ip];
        let cell = memory[mp];
        if c == 108 {
            mp = (mp + MEMORY_SIZE - 1) % MEMORY_SIZE;
            ip = ip + 1;
        } else if c == 114 {
            mp = (mp + 1) % MEMORY_SIZE;
            ip = ip + 1;
        } else if c == 105 {
            memory[mp] = if cell == 255 { 0 } else { cell + 1 };
            ip = ip + 1;
        } else if c == 100 {
            memory[mp] = if cell == 0 { 255 } else { cell - 1 };
            ip = ip + 1;
        } else if c == 111 {
            out.push(cell);
            ip = ip + 1;
        } else if c == 112 && cell == 0 {
            let j = find_close(prog, ip);
            if j >= n {
                return None;
            }
            ip = j + 1;
        } else if c == 113 && cell != 0 {
            match find_open(prog, ip) {
                Some(j) => {
                    ip = j + 1;
                },
                None => {
                    return None;
                },
            }
        } else {
            ip = ip + 1;
        }
    }
    Some(out)
}

} // verus!
