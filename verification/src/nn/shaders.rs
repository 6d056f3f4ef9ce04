use vstd::prelude::*;

verus! {

/// The kernels every model graph is built from.
#[derive(Debug, Clone, Copy, PartialEq, Eq, Structural)]
pub enum BuiltInShader {
    // Forward
    MatMul,
    Embedding,
    CausalMask,
    SiLU,
    RoPE,
    Softmax,
    RMSNorm,
    ResidualAdd,
    CrossEntropy,
    HeadGather,
    HeadScatter,
    ZeroTensor,
    // Backward
    MatMulTrp,
    MatMulWeightBwd,
    SiLUBwd,
    RoPEBwd,
    SoftmaxBwd,
    RMSNormBwd,
    RMSNormWeightBwd,
    EmbeddingBwd,
    CrossEntropyBwd,
    BwdAddInplace,
    // Optimizer
    AdamW,
}

/// The kernel name of each built-in shader.
pub open spec fn builtin_name(s: BuiltInShader) -> Seq<char> {
    match s {
        BuiltInShader::MatMul => "MatMul"@,
        BuiltInShader::Embedding => "Embedding"@,
        BuiltInShader::CausalMask => "CausalMask"@,
        BuiltInShader::SiLU => "SiLU"@,
        BuiltInShader::RoPE => "RoPE"@,
        BuiltInShader::Softmax => "Softmax"@,
        BuiltInShader::RMSNorm => "RMSNorm"@,
        BuiltInShader::ResidualAdd => "ResidualAdd"@,
        BuiltInShader::CrossEntropy => "CrossEntropy"@,
        BuiltInShader::HeadGather => "HeadGather"@,
        BuiltInShader::HeadScatter => "HeadScatter"@,
        BuiltInShader::ZeroTensor => "ZeroTensor"@,
        BuiltInShader::MatMulTrp => "MatMulTrp"@,
        BuiltInShader::MatMulWeightBwd => "MatMulWeightBwd"@,
        BuiltInShader::SiLUBwd => "SiLUBwd"@,
        BuiltInShader::RoPEBwd => "RoPEBwd"@,
        BuiltInShader::SoftmaxBwd => "SoftmaxBwd"@,
        BuiltInShader::RMSNormBwd => "RMSNormBwd"@,
        BuiltInShader::RMSNormWeightBwd => "RMSNormWeightBwd"@,
        BuiltInShader::EmbeddingBwd => "EmbeddingBwd"@,
        BuiltInShader::CrossEntropyBwd => "CrossEntropyBwd"@,
        BuiltInShader::BwdAddInplace => "BwdAddInplace"@,
        BuiltInShader::AdamW => "AdamW"@,
    }
}

impl BuiltInShader {
    pub fn name(&self) -> (r: &'static str)
        ensures
            r@ == builtin_name(*self),
    {
        match self {
            Self::MatMul => "MatMul",
            Self::Embedding => "Embedding",
            Self::CausalMask => "CausalMask",
            Self::SiLU => "SiLU",
            Self::RoPE => "RoPE",
            Self::Softmax => "Softmax",
            Self::RMSNorm => "RMSNorm",
            Self::ResidualAdd => "ResidualAdd",
            Self::CrossEntropy => "CrossEntropy",
            Self::HeadGather => "HeadGather",
            Self::HeadScatter => "HeadScatter",
            Self::ZeroTensor => "ZeroTensor",
            Self::MatMulTrp => "MatMulTrp",
            Self::MatMulWeightBwd => "MatMulWeightBwd",
            Self::SiLUBwd => "SiLUBwd",
            Self::RoPEBwd => "RoPEBwd",
            Self::SoftmaxBwd => "SoftmaxBwd",
            Self::RMSNormBwd => "RMSNormBwd",
            Self::RMSNormWeightBwd => "RMSNormWeightBwd",
            Self::EmbeddingBwd => "EmbeddingBwd",
            Self::CrossEntropyBwd => "CrossEntropyBwd",
            Self::BwdAddInplace => "BwdAddInplace",
            Self::AdamW => "AdamW",
        }
    }
}


/// Length, first and last character of a name.
spec fn name_key(n: Seq<char>) -> (int, char, char) {
    (n.len() as int, n[0], n[n.len() - 1])
}

/// The length, first and last character of each built-in shader's name.
spec fn builtin_key(s: BuiltInShader) -> (int, char, char) {
    match s {
        BuiltInShader::MatMul => (6, 'M', 'l'),
        BuiltInShader::Embedding => (9, 'E', 'g'),
        BuiltInShader::CausalMask => (10, 'C', 'k'),
        BuiltInShader::SiLU => (4, 'S', 'U'),
        BuiltInShader::RoPE => (4, 'R', 'E'),
        BuiltInShader::Softmax => (7, 'S', 'x'),
        BuiltInShader::RMSNorm => (7, 'R', 'm'),
        BuiltInShader::ResidualAdd => (11, 'R', 'd'),
        BuiltInShader::CrossEntropy => (12, 'C', 'y'),
        BuiltInShader::HeadGather => (10, 'H', 'r'),
        BuiltInShader::HeadScatter => (11, 'H', 'r'),
        BuiltInShader::ZeroTensor => (10, 'Z', 'r'),
        BuiltInShader::MatMulTrp => (9, 'M', 'p'),
        BuiltInShader::MatMulWeightBwd => (15, 'M', 'd'),
        BuiltInShader::SiLUBwd => (7, 'S', 'd'),
        BuiltInShader::RoPEBwd => (7, 'R', 'd'),
        BuiltInShader::SoftmaxBwd => (10, 'S', 'd'),
        BuiltInShader::RMSNormBwd => (10, 'R', 'd'),
        BuiltInShader::RMSNormWeightBwd => (16, 'R', 'd'),
        BuiltInShader::EmbeddingBwd => (12, 'E', 'd'),
        BuiltInShader::CrossEntropyBwd => (15, 'C', 'd'),
        BuiltInShader::BwdAddInplace => (13, 'B', 'e'),
        BuiltInShader::AdamW => (5, 'A', 'W'),
    }
}

/// The built-in shaders have pairwise distinct names: a name picks out
/// one shader.
pub proof fn lemma_builtin_names_distinct(a: BuiltInShader, b: BuiltInShader)
    ensures
        builtin_name(a) == builtin_name(b) ==> a == b,
{
        reveal_strlit("MatMul");
        reveal_strlit("Embedding");
        reveal_strlit("CausalMask");
        reveal_strlit("SiLU");
        reveal_strlit("RoPE");
        reveal_strlit("Softmax");
        reveal_strlit("RMSNorm");
        reveal_strlit("ResidualAdd");
        reveal_strlit("CrossEntropy");
        reveal_strlit("HeadGather");
        reveal_strlit("HeadScatter");
        reveal_strlit("ZeroTensor");
        reveal_strlit("MatMulTrp");
        reveal_strlit("MatMulWeightBwd");
        reveal_strlit("SiLUBwd");
        reveal_strlit("RoPEBwd");
        reveal_strlit("SoftmaxBwd");
        reveal_strlit("RMSNormBwd");
        reveal_strlit("RMSNormWeightBwd");
        reveal_strlit("EmbeddingBwd");
        reveal_strlit("CrossEntropyBwd");
        reveal_strlit("BwdAddInplace");
        reveal_strlit("AdamW");
    assert(name_key(builtin_name(a)) == builtin_key(a));
    assert(name_key(builtin_name(b)) == builtin_key(b));
}

} // verus!
