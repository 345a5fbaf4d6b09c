//! How a file is divided into blocks of a fixed size, of which only the last one may
//! be shorter.

use vstd::prelude::*;

verus! {

/// The size of the block that starts at `offset` in a file of `file_size` bytes.
pub open spec fn len_at(block_size: nat, file_size: nat, offset: nat) -> nat {
    if file_size - offset < block_size {
        (file_size - offset) as nat
    } else {
        block_size
    }
}

/// The number of blocks of a file.
pub open spec fn count(block_size: nat, file_size: nat) -> nat {
    ((file_size + block_size - 1) / (block_size as int)) as nat
}

/// Where block `idx` starts.
pub open spec fn start(block_size: nat, idx: nat) -> nat {
    idx * block_size
}

/// The bytes of block `idx` of `file`.
pub open spec fn block(file: Seq<u8>, block_size: nat, idx: nat) -> Seq<u8> {
    let from = start(block_size, idx);
    file.subrange(from as int, (from + len_at(block_size, file.len(), from)) as int)
}

/// `file` with `data` written over the bytes from `offset` on.
pub open spec fn patched(file: Seq<u8>, offset: nat, data: Seq<u8>) -> Seq<u8> {
    Seq::new(
        file.len(),
        |i: int|
            if offset <= i < offset + data.len() {
                data[i - offset]
            } else {
                file[i]
            },
    )
}

/// A block is as long as it can be: it is not longer than its size and does not go past
/// the end of the file, but reaches one of the two.
pub proof fn law_block_is_as_long_as_it_can_be(block_size: nat, file_size: nat, offset: nat)
    requires
        offset <= file_size,
    ensures
        len_at(block_size, file_size, offset) <= block_size,
        offset + len_at(block_size, file_size, offset) <= file_size,
        len_at(block_size, file_size, offset) == block_size || offset + len_at(
            block_size,
            file_size,
            offset,
        ) == file_size,
{
}

/// The blocks of a file are no fewer than it takes to hold all its bytes, and no more.
pub proof fn law_block_count_is_exact(block_size: nat, file_size: nat)
    requires
        block_size > 0,
    ensures
        file_size <= count(block_size, file_size) * block_size < file_size + block_size,
{
    let n = count(block_size, file_size);
    vstd::arithmetic::div_mod::lemma_div_pos_is_pos(
        file_size + block_size - 1,
        block_size as int,
    );
    vstd::arithmetic::div_mod::lemma_fundamental_div_mod(
        file_size + block_size - 1,
        block_size as int,
    );
    vstd::arithmetic::div_mod::lemma_mod_bound(file_size + block_size - 1, block_size as int);
    assert(n * block_size == block_size * n) by (nonlinear_arith);
}

/// A block holds the bytes of the file from its start on.
pub proof fn law_block_holds_bytes_of_file(file: Seq<u8>, block_size: nat, idx: nat, i: int)
    requires
        block_size > 0,
        idx < count(block_size, file.len()),
    ensures
        block(file, block_size, idx).len() == block_size || idx * block_size + block(
            file,
            block_size,
            idx,
        ).len() == file.len(),
        0 < block(file, block_size, idx).len() <= block_size,
        0 <= i < block(file, block_size, idx).len() ==> block(file, block_size, idx)[i]
            == file[idx * block_size + i],
{
    lemma_start_in_file(block_size, file.len(), idx);
}

/// Writing over a file changes the bytes at that place to those written, and no others.
pub proof fn law_patch_changes_its_place(file: Seq<u8>, offset: nat, data: Seq<u8>, i: int)
    requires
        offset + data.len() <= file.len(),
        0 <= i < file.len(),
    ensures
        patched(file, offset, data).len() == file.len(),
        patched(file, offset, data).subrange(offset as int, (offset + data.len()) as int) == data,
        i < offset || i >= offset + data.len() ==> patched(file, offset, data)[i] == file[i],
{
    assert(patched(file, offset, data).subrange(offset as int, (offset + data.len()) as int)
        =~= data);
}

/// A block index is in use exactly when the block starts inside the file.
pub proof fn lemma_start_in_file(block_size: nat, file_size: nat, idx: nat)
    requires
        block_size > 0,
    ensures
        idx < count(block_size, file_size) <==> start(block_size, idx) < file_size,
{
    let q = (file_size + block_size - 1) / (block_size as int);
    let r = (file_size + block_size - 1) % (block_size as int);
    vstd::arithmetic::div_mod::lemma_fundamental_div_mod(
        file_size + block_size - 1,
        block_size as int,
    );
    vstd::arithmetic::div_mod::lemma_mod_bound(file_size + block_size - 1, block_size as int);
    vstd::arithmetic::div_mod::lemma_div_pos_is_pos(
        file_size + block_size - 1,
        block_size as int,
    );
    assert(idx < q <==> idx * block_size < file_size) by (nonlinear_arith)
        requires
            file_size + block_size - 1 == block_size * q + r,
            0 <= r < block_size,
            block_size > 0,
            q >= 0,
    ;
}

pub proof fn lemma_start_next(block_size: nat, idx: nat)
    ensures
        start(block_size, idx + 1) == start(block_size, idx) + block_size,
{
    assert((idx + 1) * block_size == idx * block_size + block_size) by (nonlinear_arith);
}

/// Every byte of a file lies in exactly one block: the one with index
/// `pos / block_size`.
pub proof fn law_blocks_partition_file(block_size: nat, file_size: nat, pos: nat, idx: nat)
    requires
        block_size > 0,
        pos < file_size,
    ensures
        (pos / block_size) < count(block_size, file_size),
        (idx < count(block_size, file_size) && start(block_size, idx) <= pos < start(
            block_size,
            idx,
        ) + len_at(block_size, file_size, start(block_size, idx))) <==> idx == pos / block_size,
{
    let home = pos / block_size;
    vstd::arithmetic::div_mod::lemma_fundamental_div_mod(pos as int, block_size as int);
    vstd::arithmetic::div_mod::lemma_mod_bound(pos as int, block_size as int);
    assert(home * block_size <= pos < home * block_size + block_size) by (nonlinear_arith)
        requires
            pos == block_size * home + pos % block_size,
            0 <= pos % block_size < block_size,
    ;
    lemma_start_in_file(block_size, file_size, home);
    lemma_start_in_file(block_size, file_size, idx);
    if idx < home {
        assert(idx * block_size + block_size <= home * block_size) by (nonlinear_arith)
            requires
                idx < home,
        ;
    } else if idx > home {
        assert(home * block_size + block_size <= idx * block_size) by (nonlinear_arith)
            requires
                home < idx,
        ;
    }
}

/// The size of the block that starts at `offset`.
pub fn block_len(block_size: usize, file_size: usize, offset: usize) -> (len: usize)
    requires
        offset <= file_size,
    ensures
        len == len_at(block_size as nat, file_size as nat, offset as nat),
{
    let rem: usize = file_size - offset;
    if rem < block_size {
        rem
    } else {
        block_size
    }
}

/// The number of blocks of a file.
pub fn block_count(block_size: usize, file_size: usize) -> (n: usize)
    requires
        block_size > 0,
    ensures
        n == count(block_size as nat, file_size as nat),
        n <= file_size,
{
    let whole: usize = file_size / block_size;
    let rest: usize = file_size % block_size;
    proof {
        let fs = file_size as int;
        let bs = block_size as int;
        vstd::arithmetic::div_mod::lemma_fundamental_div_mod(fs, bs);
        vstd::arithmetic::div_mod::lemma_mod_bound(fs, bs);
        lemma_start_in_file(block_size as nat, file_size as nat, file_size as nat);
        assert(fs * bs >= fs) by (nonlinear_arith)
            requires
                bs >= 1,
                fs >= 0,
        ;
        let n = if rest == 0 {
            whole as int
        } else {
            whole + 1
        };
        assert(fs + bs - 1 == bs * n + (if rest == 0 {
            bs - 1
        } else {
            rest - 1
        })) by (nonlinear_arith)
            requires
                fs == bs * whole + rest,
                n == (if rest == 0 {
                    whole as int
                } else {
                    whole + 1
                }),
        ;
        vstd::arithmetic::div_mod::lemma_fundamental_div_mod_converse(
            fs + bs - 1,
            bs,
            n,
            if rest == 0 {
                bs - 1
            } else {
                rest - 1
            },
        );
    }
    if rest == 0 {
        whole
    } else {
        whole + 1
    }
}

} // verus!
