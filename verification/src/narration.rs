//! The sample program, told step by step: for each instruction address
//! the line of the source program that the instruction belongs to.

use std::collections::HashMap;
use vstd::prelude::*;
use vstd::string::StringExecFns;

verus! {

/// The number of instructions of the sample program.
pub const SAMPLE_PROGRAM_LENGTH: u8 = 37;

/// The source line that the instruction at `address` of the sample program
/// belongs to, for an address below [`SAMPLE_PROGRAM_LENGTH`].
pub open spec fn source_line(address: u8) -> Seq<char>
    recommends
        address < SAMPLE_PROGRAM_LENGTH,
{
    if address == 0 {
        "a = 10"@
    } else if address == 1 {
        "b = 20"@
    } else if address == 2 {
        "data[0] = a"@
    } else if address == 3 {
        "data[1] = b"@
    } else if address == 4 {
        "Calculate a + b"@
    } else if address == 5 {
        "data[2] = a + b"@
    } else if address == 6 {
        "Loading data[0] for comparison"@
    } else if address == 7 {
        "Loading data[1] for comparison"@
    } else if address == 8 {
        "if data[0] < data[1]:"@
    } else if address == 9 {
        "Checking branch condition"@
    } else if address == 10 {
        "data[3] = 10 (inside if block)"@
    } else if address == 11 {
        "Storing to data[3]"@
    } else if address == 12 {
        "Skip else block"@
    } else if address == 13 {
        "data[3] = 0 (inside else block - skipped)"@
    } else if address == 14 {
        "Storing to data[3] (skipped)"@
    } else if address == 15 {
        "Loading data[2] for calculation"@
    } else if address == 16 {
        "Loading data[0] for calculation"@
    } else if address == 17 {
        "data[4] = data[2] - data[0]"@
    } else if address == 18 {
        "Storing to data[4]"@
    } else if address == 19 {
        "total = 0"@
    } else if address == 20 {
        "i = 0"@
    } else if address == 21 {
        "Starting loop: for i in range(3):"@
    } else if address == 22 {
        "Checking if i < 3"@
    } else if address == 23 {
        "Loop condition check"@
    } else if address == 24 {
        "Loading data[2] (iteration 1)"@
    } else if address == 25 {
        "Loading data[3] (iteration 1)"@
    } else if address == 26 {
        "Calculating data[2] + data[3]"@
    } else if address == 27 {
        "total += data[2] + data[3]"@
    } else if address == 28 {
        "i += 1"@
    } else if address == 29 {
        "Jump back to loop start"@
    } else if address == 30 {
        "Preparing return values"@
    } else if address == 31 {
        "Loading return value c (data[2])"@
    } else if address == 32 {
        "Loading return value d (data[3])"@
    } else if address == 33 {
        "Loading return value f (data[4])"@
    } else if address == 34 {
        "Storing c to memory[40]"@
    } else if address == 35 {
        "Storing d to memory[44]"@
    } else {
        "Storing f to memory[48]"@
    }
}

/// The source line of the instruction at `address`.
fn source_line_text(address: u8) -> (line: &'static str)
    requires
        address < SAMPLE_PROGRAM_LENGTH,
    ensures
        line@ == source_line(address),
{
    match address {
        0 => "a = 10",
        1 => "b = 20",
        2 => "data[0] = a",
        3 => "data[1] = b",
        4 => "Calculate a + b",
        5 => "data[2] = a + b",
        6 => "Loading data[0] for comparison",
        7 => "Loading data[1] for comparison",
        8 => "if data[0] < data[1]:",
        9 => "Checking branch condition",
        10 => "data[3] = 10 (inside if block)",
        11 => "Storing to data[3]",
        12 => "Skip else block",
        13 => "data[3] = 0 (inside else block - skipped)",
        14 => "Storing to data[3] (skipped)",
        15 => "Loading data[2] for calculation",
        16 => "Loading data[0] for calculation",
        17 => "data[4] = data[2] - data[0]",
        18 => "Storing to data[4]",
        19 => "total = 0",
        20 => "i = 0",
        21 => "Starting loop: for i in range(3):",
        22 => "Checking if i < 3",
        23 => "Loop condition check",
        24 => "Loading data[2] (iteration 1)",
        25 => "Loading data[3] (iteration 1)",
        26 => "Calculating data[2] + data[3]",
        27 => "total += data[2] + data[3]",
        28 => "i += 1",
        29 => "Jump back to loop start",
        30 => "Preparing return values",
        31 => "Loading return value c (data[2])",
        32 => "Loading return value d (data[3])",
        33 => "Loading return value f (data[4])",
        34 => "Storing c to memory[40]",
        35 => "Storing d to memory[44]",
        _ => "Storing f to memory[48]",
    }
}

/// The map from each instruction address of the sample program to its
/// source line.
pub fn create_instruction_to_python_map() -> (map: HashMap<u8, String>)
    ensures
        forall|address: u8| map@.contains_key(address) <==> address < SAMPLE_PROGRAM_LENGTH,
        forall|address: u8|
            address < SAMPLE_PROGRAM_LENGTH ==> (#[trigger] map@[address])@ == source_line(address),
{
    let mut map: HashMap<u8, String> = HashMap::new();
    let mut address: u8 = 0;
    while address < SAMPLE_PROGRAM_LENGTH
        invariant
            address <= SAMPLE_PROGRAM_LENGTH,
            forall|a: u8| map@.contains_key(a) <==> a < address,
            forall|a: u8| a < address ==> (#[trigger] map@[a])@ == source_line(a),
        decreases SAMPLE_PROGRAM_LENGTH - address,
    {
        map.insert(address, String::from_str(source_line_text(address)));
        address += 1;
    }
    map
}

} // verus!
