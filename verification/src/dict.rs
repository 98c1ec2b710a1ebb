//! Dictionary encoding: common prediction types and names as compact codes.

use vstd::prelude::*;

pub mod compact_names;
pub mod regions;

verus! {

/// Dictionary of common prediction types.
#[derive(Debug, Clone, Copy, PartialEq, Eq, Structural)]
pub enum PredictionCode {
    /// No prediction / unknown (code 0)
    Unknown,
    /// Code generation (1)
    CodeGeneration,
    /// Mathematical reasoning (2)
    MathReasoning,
    /// Text completion (3)
    TextCompletion,
    /// Visual processing (4)
    VisualProcessing,
    /// Audio processing (5)
    AudioProcessing,
    /// Action / API call planning (6)
    ActionPlanning,
    /// Memory recall (7)
    MemoryRecall,
    /// Scientific reasoning (8)
    ScientificReasoning,
    /// Logical reasoning (9)
    LogicalReasoning,
    /// Translation (10)
    Translation,
    /// Summarization (11)
    Summarization,
    /// Question answering (12)
    QuestionAnswering,
    /// Creative writing (13)
    CreativeWriting,
    /// Code debugging (14)
    CodeDebugging,
    /// Data analysis (15)
    DataAnalysis,
    /// Task planning (16)
    TaskPlanning,
    /// Tool use (17)
    ToolUse,
    /// Multi-modal integration (18)
    Multimodal,
    /// Memory consolidation (19)
    MemoryConsolidation,
    /// Self-reflection (20)
    SelfReflection,
    /// Safety check (21)
    SafetyCheck,
    /// Social reasoning (22)
    SocialReasoning,
    /// Physics simulation (23)
    PhysicsSimulation,
    /// Learning / training mode (24)
    Learning,
}

impl PredictionCode {
    /// The wire code of each prediction type.
    pub open spec fn spec_code(self) -> u32 {
        match self {
            PredictionCode::Unknown => 0,
            PredictionCode::CodeGeneration => 1,
            PredictionCode::MathReasoning => 2,
            PredictionCode::TextCompletion => 3,
            PredictionCode::VisualProcessing => 4,
            PredictionCode::AudioProcessing => 5,
            PredictionCode::ActionPlanning => 6,
            PredictionCode::MemoryRecall => 7,
            PredictionCode::ScientificReasoning => 8,
            PredictionCode::LogicalReasoning => 9,
            PredictionCode::Translation => 10,
            PredictionCode::Summarization => 11,
            PredictionCode::QuestionAnswering => 12,
            PredictionCode::CreativeWriting => 13,
            PredictionCode::CodeDebugging => 14,
            PredictionCode::DataAnalysis => 15,
            PredictionCode::TaskPlanning => 16,
            PredictionCode::ToolUse => 17,
            PredictionCode::Multimodal => 18,
            PredictionCode::MemoryConsolidation => 19,
            PredictionCode::SelfReflection => 20,
            PredictionCode::SafetyCheck => 21,
            PredictionCode::SocialReasoning => 22,
            PredictionCode::PhysicsSimulation => 23,
            PredictionCode::Learning => 24,
        }
    }

    /// The wire code of this prediction type.
    pub fn code(&self) -> (c: u32)
        ensures
            c == self.spec_code(),
    {
        match self {
            PredictionCode::Unknown => 0,
            PredictionCode::CodeGeneration => 1,
            PredictionCode::MathReasoning => 2,
            PredictionCode::TextCompletion => 3,
            PredictionCode::VisualProcessing => 4,
            PredictionCode::AudioProcessing => 5,
            PredictionCode::ActionPlanning => 6,
            PredictionCode::MemoryRecall => 7,
            PredictionCode::ScientificReasoning => 8,
            PredictionCode::LogicalReasoning => 9,
            PredictionCode::Translation => 10,
            PredictionCode::Summarization => 11,
            PredictionCode::QuestionAnswering => 12,
            PredictionCode::CreativeWriting => 13,
            PredictionCode::CodeDebugging => 14,
            PredictionCode::DataAnalysis => 15,
            PredictionCode::TaskPlanning => 16,
            PredictionCode::ToolUse => 17,
            PredictionCode::Multimodal => 18,
            PredictionCode::MemoryConsolidation => 19,
            PredictionCode::SelfReflection => 20,
            PredictionCode::SafetyCheck => 21,
            PredictionCode::SocialReasoning => 22,
            PredictionCode::PhysicsSimulation => 23,
            PredictionCode::Learning => 24,
        }
    }

    /// Decode a wire code: codes 1..=24 name their type, every other code is `Unknown`.
    pub fn from_u32(code: u32) -> (p: PredictionCode)
        ensures
            1 <= code <= 24 ==> p.spec_code() == code,
            !(1 <= code <= 24) ==> p == PredictionCode::Unknown,
    {
        match code {
            1 => PredictionCode::CodeGeneration,
            2 => PredictionCode::MathReasoning,
            3 => PredictionCode::TextCompletion,
            4 => PredictionCode::VisualProcessing,
            5 => PredictionCode::AudioProcessing,
            6 => PredictionCode::ActionPlanning,
            7 => PredictionCode::MemoryRecall,
            8 => PredictionCode::ScientificReasoning,
            9 => PredictionCode::LogicalReasoning,
            10 => PredictionCode::Translation,
            11 => PredictionCode::Summarization,
            12 => PredictionCode::QuestionAnswering,
            13 => PredictionCode::CreativeWriting,
            14 => PredictionCode::CodeDebugging,
            15 => PredictionCode::DataAnalysis,
            16 => PredictionCode::TaskPlanning,
            17 => PredictionCode::ToolUse,
            18 => PredictionCode::Multimodal,
            19 => PredictionCode::MemoryConsolidation,
            20 => PredictionCode::SelfReflection,
            21 => PredictionCode::SafetyCheck,
            22 => PredictionCode::SocialReasoning,
            23 => PredictionCode::PhysicsSimulation,
            24 => PredictionCode::Learning,
            _ => PredictionCode::Unknown,
        }
    }

    /// The human-readable name of each prediction type.
    pub open spec fn spec_name(self) -> Seq<char> {
        match self {
            PredictionCode::Unknown => "unknown"@,
            PredictionCode::CodeGeneration => "code_generation"@,
            PredictionCode::MathReasoning => "math_reasoning"@,
            PredictionCode::TextCompletion => "text_completion"@,
            PredictionCode::VisualProcessing => "visual_processing"@,
            PredictionCode::AudioProcessing => "audio_processing"@,
            PredictionCode::ActionPlanning => "action_planning"@,
            PredictionCode::MemoryRecall => "memory_recall"@,
            PredictionCode::ScientificReasoning => "scientific_reasoning"@,
            PredictionCode::LogicalReasoning => "logical_reasoning"@,
            PredictionCode::Translation => "translation"@,
            PredictionCode::Summarization => "summarization"@,
            PredictionCode::QuestionAnswering => "question_answering"@,
            PredictionCode::CreativeWriting => "creative_writing"@,
            PredictionCode::CodeDebugging => "code_debugging"@,
            PredictionCode::DataAnalysis => "data_analysis"@,
            PredictionCode::TaskPlanning => "task_planning"@,
            PredictionCode::ToolUse => "tool_use"@,
            PredictionCode::Multimodal => "multimodal"@,
            PredictionCode::MemoryConsolidation => "memory_consolidation"@,
            PredictionCode::SelfReflection => "self_reflection"@,
            PredictionCode::SafetyCheck => "safety_check"@,
            PredictionCode::SocialReasoning => "social_reasoning"@,
            PredictionCode::PhysicsSimulation => "physics_simulation"@,
            PredictionCode::Learning => "learning"@,
        }
    }

    /// The human-readable name.
    pub fn name(&self) -> (s: &'static str)
        ensures
            s@ == self.spec_name(),
    {
        match self {
            PredictionCode::Unknown => "unknown",
            PredictionCode::CodeGeneration => "code_generation",
            PredictionCode::MathReasoning => "math_reasoning",
            PredictionCode::TextCompletion => "text_completion",
            PredictionCode::VisualProcessing => "visual_processing",
            PredictionCode::AudioProcessing => "audio_processing",
            PredictionCode::ActionPlanning => "action_planning",
            PredictionCode::MemoryRecall => "memory_recall",
            PredictionCode::ScientificReasoning => "scientific_reasoning",
            PredictionCode::LogicalReasoning => "logical_reasoning",
            PredictionCode::Translation => "translation",
            PredictionCode::Summarization => "summarization",
            PredictionCode::QuestionAnswering => "question_answering",
            PredictionCode::CreativeWriting => "creative_writing",
            PredictionCode::CodeDebugging => "code_debugging",
            PredictionCode::DataAnalysis => "data_analysis",
            PredictionCode::TaskPlanning => "task_planning",
            PredictionCode::ToolUse => "tool_use",
            PredictionCode::Multimodal => "multimodal",
            PredictionCode::MemoryConsolidation => "memory_consolidation",
            PredictionCode::SelfReflection => "self_reflection",
            PredictionCode::SafetyCheck => "safety_check",
            PredictionCode::SocialReasoning => "social_reasoning",
            PredictionCode::PhysicsSimulation => "physics_simulation",
            PredictionCode::Learning => "learning",
        }
    }
}

/// Law: decoding the code of any prediction type gives that type back.
pub proof fn lemma_prediction_code_roundtrip(p: PredictionCode)
    ensures
        1 <= p.spec_code() <= 24 || p == PredictionCode::Unknown,
        p != PredictionCode::Unknown ==> 1 <= p.spec_code() <= 24,
        forall|q: PredictionCode| q.spec_code() == p.spec_code() ==> q == p,
{
}

} // verus!
