pub mod utils;
pub mod mapas;
pub mod string_pool;
pub mod tokenizer;
pub mod ordenacao;
pub mod indice_invertido;
pub mod padronizacao;
pub mod busca_logradouro;
pub mod ordem_resposta;
pub mod compressao;
