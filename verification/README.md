# enderecobr_rs — busca fuzzy de logradouros

Índice de logradouros brasileiros por município, com filtros por CEP e por
localidade (bairro), e busca do logradouro mais parecido com um texto dado.
A biblioteca é escrita e provada com [Verus](https://github.com/verus-lang/verus):
cada função pública tem um contrato (`requires` / `ensures`) sobre um modelo
matemático dos dados, e as propriedades que ligam várias funções estão
enunciadas e provadas como funções de prova (`lei_*`).

## Organização

- `src/busca_fuzzy/utils.rs` — interseção de listas ordenadas, busca binária,
  remoção de repetidos.
- `src/busca_fuzzy/string_pool.rs` — pool de textos com id sequencial e índice
  inverso.
- `src/busca_fuzzy/tokenizer.rs` — n-gramas de bytes e o mapa de tokens.
- `src/busca_fuzzy/indice_invertido.rs` — índice invertido de tokens e a busca
  por sobreposição mínima de tokens.
- `src/busca_fuzzy/padronizacao.rs` — padronização de textos (maiúsculas sem
  acento, espaços simples), siglas de estados e leitura de CEPs.
- `src/busca_fuzzy/busca_logradouro.rs` — o indexador por município e a busca.
- `src/busca_fuzzy/mapas.rs`, `src/busca_fuzzy/ordenacao.rs` — as funções
  confiáveis que chamam `FxHashMap` (de `rustc_hash`) e as ordenações de std.
- `src/busca_fuzzy/compressao.rs` — a compressão zstd do arquivo de índice.
- `app/` — o utilitário de linha de comando: leitura de parquet, leitura e
  gravação do arquivo de índice (serialização com postcard) e a similaridade
  de Jaro (`strsim`).

## Similaridades e proporções

A biblioteca não usa ponto flutuante. Proporções (sobreposição mínima de
tokens, frequência máxima de um token) são `Proporcao { por_milhao }`, e a
similaridade é uma chave `u32` cuja ordem é a ordem das similaridades: para
uma similaridade `x` em `[0, 1]`, `x.to_bits()` do `f32`. A função de
similaridade é um parâmetro da busca; `app/` usa a de Jaro.
