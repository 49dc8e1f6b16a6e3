use vstd::prelude::*;

verus! {

/// A fresh vector holding the bytes of `data`.
pub fn copy_bytes(data: &[u8]) -> (copy: Vec<u8>)
    ensures
        copy@ == data@,
{
    let mut copy: Vec<u8> = Vec::with_capacity(data.len());
    let mut index: usize = 0;
    while index < data.len()
        invariant
            index <= data@.len(),
            copy@ == data@.subrange(0, index as int),
        decreases data@.len() - index,
    {
        copy.push(data[index]);
        index += 1;
    }
    copy
}

/// A fresh vector holding `data[start..end]`.
pub fn copy_range(data: &[u8], start: usize, end: usize) -> (copy: Vec<u8>)
    requires
        start <= end <= data@.len(),
    ensures
        copy@ == data@.subrange(start as int, end as int),
{
    let mut copy: Vec<u8> = Vec::with_capacity(end - start);
    let mut index: usize = start;
    while index < end
        invariant
            start <= index <= end,
            end <= data@.len(),
            copy@ == data@.subrange(start as int, index as int),
        decreases end - index,
    {
        copy.push(data[index]);
        index += 1;
    }
    copy
}

/// A fresh vector of `length` copies of `value`.
pub fn filled_bytes(value: u8, length: usize) -> (bytes: Vec<u8>)
    ensures
        bytes@ == Seq::new(length as nat, |_i: int| value),
{
    let mut bytes: Vec<u8> = Vec::with_capacity(length);
    let mut index: usize = 0;
    while index < length
        invariant
            index <= length,
            bytes@ == Seq::new(index as nat, |_i: int| value),
        decreases length - index,
    {
        bytes.push(value);
        index += 1;
    }
    bytes
}

} // verus!
